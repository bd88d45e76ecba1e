use rspack_cacheable::{
    from_bytes, to_bytes, BuildMeta, BuildMetaDefaultObject, BuildMetaExportsType,
    DeserializeError, ExportsArgument, FactoryMeta, Field, ModuleArgument, ResolvedId,
    CurrentHandle,
};


fn meta() -> BuildMeta {
    BuildMeta {
        strict_harmony_module: true,
        has_top_level_await: false,
        esm: true,
        exports_type: BuildMetaExportsType::Flagged,
        default_object: BuildMetaDefaultObject::RedirectWarn,
        module_argument: ModuleArgument::WebpackModule,
        exports_argument: ExportsArgument::Exports,
        side_effect_free: Some(false),
    }
}

#[test]
fn build_meta_round_trips_through_archive() {
    let m = meta();
    let bytes = to_bytes(&m.to_graph()).unwrap();
    assert_eq!(bytes.len(), 65);
    let g = from_bytes(&bytes, &BuildMeta::schema(), &mut CurrentHandle { handle: 0 }).unwrap();
    assert_eq!(BuildMeta::from_graph(&g), Ok(m));
}

#[test]
fn build_meta_archive_refuses_every_flipped_byte() {
    let bytes = to_bytes(&meta().to_graph()).unwrap();
    for i in 0..bytes.len() {
        let mut bad = bytes.clone();
        bad[i] = bad[i].wrapping_add(1);
        let r = from_bytes(&bad, &BuildMeta::schema(), &mut CurrentHandle { handle: 0 })
            .and_then(|g| BuildMeta::from_graph(&g));
        assert_eq!(r, Err(DeserializeError::CheckBytesError), "byte {}", i);
    }
}

#[test]
fn build_meta_record_of_wrong_shape_is_refused() {
    let mut g = meta().to_graph();
    g.fields[3] = Field::Int(5);
    assert_eq!(BuildMeta::from_graph(&g), Err(DeserializeError::CheckBytesError));
    g.fields.pop();
    assert_eq!(BuildMeta::from_graph(&g), Err(DeserializeError::CheckBytesError));
}

#[test]
fn defaults_are_unset_and_false() {
    let m = BuildMeta::default();
    assert_eq!(m.exports_type, BuildMetaExportsType::Unset);
    assert_eq!(m.default_object, BuildMetaDefaultObject::False);
    assert_eq!(m.module_argument, ModuleArgument::Module);
    assert_eq!(m.exports_argument, ExportsArgument::Exports);
    assert_eq!(m.side_effect_free, None);
    assert_eq!(FactoryMeta::default().side_effect_free, None);
}

#[test]
fn arguments_print_as_identifiers() {
    assert_eq!(ModuleArgument::Module.to_string(), "module");
    assert_eq!(ModuleArgument::WebpackModule.to_string(), "__webpack_module__");
    assert_eq!(ExportsArgument::Exports.to_string(), "exports");
    assert_eq!(ExportsArgument::WebpackExports.to_string(), "__webpack_exports__");
}

#[test]
fn resolved_id_keeps_path_and_flag() {
    let a = ResolvedId::new("./a.js", true);
    assert_eq!(a.path, "./a.js");
    assert!(a.external);
    assert_eq!(a, ResolvedId::new("./a.js", true));
    assert_ne!(a, ResolvedId::new("./a.js", false));
}
