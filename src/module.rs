use vstd::prelude::*;

use crate::deserialize::check_archive;
use crate::error::DeserializeError;
use crate::error::SerializeError;
use crate::polymorphic::DynArchive;
use crate::registry::DynReconstruct;
use crate::serialize::to_bytes;
use crate::laws::{field_restored, lemma_round_trip};
use crate::model::{
    decode, enc_prefix, encode, schema_of, Field, FieldV, Graph, GraphV, Shape,
};

verus! {

/// A resolved import: the path it resolved to, and whether it stays external.
#[derive(Debug, Clone, Hash)]
pub struct ResolvedId {
    pub path: String,
    pub external: bool,
}

impl ResolvedId {
    pub fn new(path: &str, external: bool) -> (r: Self)
        ensures
            r.path@ == path@,
            r.external == external,
    {
        ResolvedId { path: path.to_owned(), external }
    }
}

impl PartialEq for ResolvedId {
    fn eq(&self, other: &ResolvedId) -> (r: bool) {
        self.path == other.path && self.external == other.external
    }
}

impl Eq for ResolvedId {

}

impl vstd::std_specs::cmp::PartialEqSpecImpl for ResolvedId {
    open spec fn obeys_eq_spec() -> bool {
        true
    }

    open spec fn eq_spec(&self, other: &ResolvedId) -> bool {
        self.path@ == other.path@ && self.external == other.external
    }
}

#[derive(Debug, Clone, Copy, PartialEq, Eq, Structural, Hash)]
pub enum BuildExtraDataType {
    CssParserAndGenerator,
    AssetParserAndGenerator,
    JavaScriptParserAndGenerator,
}

#[derive(Debug, Clone, Copy, PartialEq, Eq, Structural, Hash)]
pub enum BuildMetaExportsType {
    Unset,
    Default,
    Namespace,
    Flagged,
    Dynamic,
}

impl Default for BuildMetaExportsType {
    fn default() -> (r: Self)
        ensures
            r == BuildMetaExportsType::Unset,
    {
        BuildMetaExportsType::Unset
    }
}

#[derive(Debug, Clone, Copy, PartialEq, Eq, Structural, Hash)]
pub enum ExportsType {
    DefaultOnly,
    Namespace,
    DefaultWithNamed,
    Dynamic,
}

#[derive(Debug, Clone, Copy, PartialEq, Eq, Structural, Hash)]
pub enum BuildMetaDefaultObject {
    False,
    Redirect,
    RedirectWarn,
}

impl Default for BuildMetaDefaultObject {
    fn default() -> (r: Self)
        ensures
            r == BuildMetaDefaultObject::False,
    {
        BuildMetaDefaultObject::False
    }
}

/// The name under which generated code refers to the module object.
#[derive(Debug, Clone, Copy, PartialEq, Eq, Structural, Hash)]
pub enum ModuleArgument {
    Module,
    WebpackModule,
}

impl Default for ModuleArgument {
    fn default() -> (r: Self)
        ensures
            r == ModuleArgument::Module,
    {
        ModuleArgument::Module
    }
}

impl ModuleArgument {
    /// The identifier as it appears in generated code.
    pub fn to_string(&self) -> (r: String)
        ensures
            r@ == (match self {
                ModuleArgument::Module => "module"@,
                ModuleArgument::WebpackModule => "__webpack_module__"@,
            }),
    {
        match self {
            ModuleArgument::Module => "module".to_owned(),
            ModuleArgument::WebpackModule => "__webpack_module__".to_owned(),
        }
    }
}

/// The name under which generated code refers to the exports object.
#[derive(Debug, Clone, Copy, PartialEq, Eq, Structural, Hash)]
pub enum ExportsArgument {
    Exports,
    WebpackExports,
}

impl Default for ExportsArgument {
    fn default() -> (r: Self)
        ensures
            r == ExportsArgument::Exports,
    {
        ExportsArgument::Exports
    }
}

impl ExportsArgument {
    /// The identifier as it appears in generated code.
    pub fn to_string(&self) -> (r: String)
        ensures
            r@ == (match self {
                ExportsArgument::Exports => "exports"@,
                ExportsArgument::WebpackExports => "__webpack_exports__"@,
            }),
    {
        match self {
            ExportsArgument::Exports => "exports".to_owned(),
            ExportsArgument::WebpackExports => "__webpack_exports__".to_owned(),
        }
    }
}

/// Options for computing a module's library identifier.
pub struct LibIdentOptions<'me> {
    pub context: &'me str,
}

/// What a module factory learned about a module before it was built.
#[derive(Debug, Clone, Copy, PartialEq, Eq, Structural)]
pub struct FactoryMeta {
    pub side_effect_free: Option<bool>,
}

impl Default for FactoryMeta {
    fn default() -> (r: Self)
        ensures
            r.side_effect_free is None,
    {
        FactoryMeta { side_effect_free: None }
    }
}

/// What the build of a module found out about it; a cacheable record of
/// eight integer fields.
#[derive(Debug, Clone, Copy, PartialEq, Eq, Structural)]
pub struct BuildMeta {
    pub strict_harmony_module: bool,
    pub has_top_level_await: bool,
    pub esm: bool,
    pub exports_type: BuildMetaExportsType,
    pub default_object: BuildMetaDefaultObject,
    pub module_argument: ModuleArgument,
    pub exports_argument: ExportsArgument,
    pub side_effect_free: Option<bool>,
}

impl Default for BuildMeta {
    fn default() -> (r: Self)
        ensures
            r == (BuildMeta {
                strict_harmony_module: false,
                has_top_level_await: false,
                esm: false,
                exports_type: BuildMetaExportsType::Unset,
                default_object: BuildMetaDefaultObject::False,
                module_argument: ModuleArgument::Module,
                exports_argument: ExportsArgument::Exports,
                side_effect_free: None,
            }),
    {
        BuildMeta {
            strict_harmony_module: false,
            has_top_level_await: false,
            esm: false,
            exports_type: BuildMetaExportsType::Unset,
            default_object: BuildMetaDefaultObject::False,
            module_argument: ModuleArgument::Module,
            exports_argument: ExportsArgument::Exports,
            side_effect_free: None,
        }
    }
}

pub open spec fn bool_code(b: bool) -> u64 {
    if b {
        1
    } else {
        0
    }
}

pub open spec fn code_bool(c: u64) -> Option<bool> {
    if c == 0 {
        Some(false)
    } else if c == 1 {
        Some(true)
    } else {
        None
    }
}

pub open spec fn opt_code(b: Option<bool>) -> u64 {
    match b {
        None => 0,
        Some(false) => 1,
        Some(true) => 2,
    }
}

pub open spec fn code_opt(c: u64) -> Option<Option<bool>> {
    if c == 0 {
        Some(None)
    } else if c == 1 {
        Some(Some(false))
    } else if c == 2 {
        Some(Some(true))
    } else {
        None
    }
}

pub open spec fn exports_type_code(t: BuildMetaExportsType) -> u64 {
    match t {
        BuildMetaExportsType::Unset => 0,
        BuildMetaExportsType::Default => 1,
        BuildMetaExportsType::Namespace => 2,
        BuildMetaExportsType::Flagged => 3,
        BuildMetaExportsType::Dynamic => 4,
    }
}

pub open spec fn code_exports_type(c: u64) -> Option<BuildMetaExportsType> {
    if c == 0 {
        Some(BuildMetaExportsType::Unset)
    } else if c == 1 {
        Some(BuildMetaExportsType::Default)
    } else if c == 2 {
        Some(BuildMetaExportsType::Namespace)
    } else if c == 3 {
        Some(BuildMetaExportsType::Flagged)
    } else if c == 4 {
        Some(BuildMetaExportsType::Dynamic)
    } else {
        None
    }
}

pub open spec fn default_object_code(d: BuildMetaDefaultObject) -> u64 {
    match d {
        BuildMetaDefaultObject::False => 0,
        BuildMetaDefaultObject::Redirect => 1,
        BuildMetaDefaultObject::RedirectWarn => 2,
    }
}

pub open spec fn code_default_object(c: u64) -> Option<BuildMetaDefaultObject> {
    if c == 0 {
        Some(BuildMetaDefaultObject::False)
    } else if c == 1 {
        Some(BuildMetaDefaultObject::Redirect)
    } else if c == 2 {
        Some(BuildMetaDefaultObject::RedirectWarn)
    } else {
        None
    }
}

pub open spec fn module_argument_code(a: ModuleArgument) -> u64 {
    match a {
        ModuleArgument::Module => 0,
        ModuleArgument::WebpackModule => 1,
    }
}

pub open spec fn code_module_argument(c: u64) -> Option<ModuleArgument> {
    if c == 0 {
        Some(ModuleArgument::Module)
    } else if c == 1 {
        Some(ModuleArgument::WebpackModule)
    } else {
        None
    }
}

pub open spec fn exports_argument_code(a: ExportsArgument) -> u64 {
    match a {
        ExportsArgument::Exports => 0,
        ExportsArgument::WebpackExports => 1,
    }
}

pub open spec fn code_exports_argument(c: u64) -> Option<ExportsArgument> {
    if c == 0 {
        Some(ExportsArgument::Exports)
    } else if c == 1 {
        Some(ExportsArgument::WebpackExports)
    } else {
        None
    }
}

/// The record that archives a `BuildMeta`: its eight codes, in field order.
pub open spec fn build_meta_record(m: BuildMeta) -> GraphV {
    GraphV {
        shared: Seq::empty(),
        fields: seq![
            FieldV::Int(bool_code(m.strict_harmony_module)),
            FieldV::Int(bool_code(m.has_top_level_await)),
            FieldV::Int(bool_code(m.esm)),
            FieldV::Int(exports_type_code(m.exports_type)),
            FieldV::Int(default_object_code(m.default_object)),
            FieldV::Int(module_argument_code(m.module_argument)),
            FieldV::Int(exports_argument_code(m.exports_argument)),
            FieldV::Int(opt_code(m.side_effect_free)),
        ],
    }
}

/// The code held by field `i` of `g`, if it is an integer field.
pub open spec fn int_at(g: GraphV, i: int) -> Option<u64> {
    if 0 <= i < g.fields.len() && g.fields[i] is Int {
        Some(g.fields[i]->Int_0)
    } else {
        None
    }
}

/// The `BuildMeta` that a record stands for, if every code is in range.
pub open spec fn build_meta_of(g: GraphV) -> Option<BuildMeta> {
    if g.fields.len() == 8 && (forall|i: int| 0 <= i < 8 ==> #[trigger] int_at(g, i) is Some) {
        match (
            code_bool(int_at(g, 0)->0),
            code_bool(int_at(g, 1)->0),
            code_bool(int_at(g, 2)->0),
            code_exports_type(int_at(g, 3)->0),
            code_default_object(int_at(g, 4)->0),
            code_module_argument(int_at(g, 5)->0),
            code_exports_argument(int_at(g, 6)->0),
            code_opt(int_at(g, 7)->0),
        ) {
            (
                Some(a),
                Some(b),
                Some(e),
                Some(t),
                Some(d),
                Some(ma),
                Some(ea),
                Some(s),
            ) => Some(
                BuildMeta {
                    strict_harmony_module: a,
                    has_top_level_await: b,
                    esm: e,
                    exports_type: t,
                    default_object: d,
                    module_argument: ma,
                    exports_argument: ea,
                    side_effect_free: s,
                },
            ),
            _ => None,
        }
    } else {
        None
    }
}

fn bool_to_code(b: bool) -> (r: u64)
    ensures
        r == bool_code(b),
{
    if b {
        1
    } else {
        0
    }
}

fn code_to_bool(c: u64) -> (r: Option<bool>)
    ensures
        r == code_bool(c),
{
    if c == 0 {
        Some(false)
    } else if c == 1 {
        Some(true)
    } else {
        None
    }
}

fn int_field(g: &Graph, i: usize) -> (r: Option<u64>)
    ensures
        r == int_at(g@, i as int),
{
    if i < g.fields.len() {
        match &g.fields[i] {
            Field::Int(v) => Some(*v),
            _ => None,
        }
    } else {
        None
    }
}

impl BuildMeta {
    /// The schema of the record that archives a `BuildMeta`.
    pub fn schema() -> (r: Vec<Shape>)
        ensures
            r@ == crate::model::schema_of(build_meta_record(BuildMeta::default_spec())),
    {
        let r = vec![
            Shape::Int,
            Shape::Int,
            Shape::Int,
            Shape::Int,
            Shape::Int,
            Shape::Int,
            Shape::Int,
            Shape::Int,
        ];
        assert(r@ =~= crate::model::schema_of(build_meta_record(BuildMeta::default_spec())));
        r
    }

    pub open spec fn default_spec() -> BuildMeta {
        BuildMeta {
            strict_harmony_module: false,
            has_top_level_await: false,
            esm: false,
            exports_type: BuildMetaExportsType::Unset,
            default_object: BuildMetaDefaultObject::False,
            module_argument: ModuleArgument::Module,
            exports_argument: ExportsArgument::Exports,
            side_effect_free: None,
        }
    }

    /// The record that archives this value.
    pub fn to_graph(&self) -> (r: Graph)
        ensures
            r@ == build_meta_record(*self),
    {
        let et: u64 = match self.exports_type {
            BuildMetaExportsType::Unset => 0,
            BuildMetaExportsType::Default => 1,
            BuildMetaExportsType::Namespace => 2,
            BuildMetaExportsType::Flagged => 3,
            BuildMetaExportsType::Dynamic => 4,
        };
        let d: u64 = match self.default_object {
            BuildMetaDefaultObject::False => 0,
            BuildMetaDefaultObject::Redirect => 1,
            BuildMetaDefaultObject::RedirectWarn => 2,
        };
        let ma: u64 = match self.module_argument {
            ModuleArgument::Module => 0,
            ModuleArgument::WebpackModule => 1,
        };
        let ea: u64 = match self.exports_argument {
            ExportsArgument::Exports => 0,
            ExportsArgument::WebpackExports => 1,
        };
        let s: u64 = match self.side_effect_free {
            None => 0,
            Some(false) => 1,
            Some(true) => 2,
        };
        let fields = vec![
            Field::Int(bool_to_code(self.strict_harmony_module)),
            Field::Int(bool_to_code(self.has_top_level_await)),
            Field::Int(bool_to_code(self.esm)),
            Field::Int(et),
            Field::Int(d),
            Field::Int(ma),
            Field::Int(ea),
            Field::Int(s),
        ];
        let g = Graph { shared: Vec::new(), fields };
        assert(g@.fields =~= build_meta_record(*self).fields);
        assert(g@.shared =~= build_meta_record(*self).shared);
        g
    }

    /// Rebuilds a `BuildMeta` from its record; a record of another shape, or
    /// with a code out of range, is refused.
    pub fn from_graph(g: &Graph) -> (r: Result<BuildMeta, DeserializeError>)
        ensures
            match build_meta_of(g@) {
                Some(m) => r == Ok::<BuildMeta, DeserializeError>(m),
                None => r == Err::<BuildMeta, DeserializeError>(DeserializeError::CheckBytesError),
            },
    {
        if g.fields.len() != 8 {
            return Err(DeserializeError::CheckBytesError);
        }
        let mut codes: Vec<u64> = Vec::new();
        let mut i: usize = 0;
        while i < 8
            invariant
                g.fields@.len() == 8,
                i <= 8,
                codes@.len() == i,
                forall|k: int| 0 <= k < i ==> #[trigger] int_at(g@, k) == Some(codes@[k]),
            decreases 8 - i,
        {
            match int_field(g, i) {
                Some(c) => codes.push(c),
                None => return Err(DeserializeError::CheckBytesError),
            }
            i = i + 1;
        }
        assert(forall|k: int| 0 <= k < 8 ==> #[trigger] int_at(g@, k) is Some);
        assert(int_at(g@, 0)->0 == codes@[0] && int_at(g@, 1)->0 == codes@[1] && int_at(g@, 2)->0
            == codes@[2] && int_at(g@, 3)->0 == codes@[3] && int_at(g@, 4)->0 == codes@[4]
            && int_at(g@, 5)->0 == codes@[5] && int_at(g@, 6)->0 == codes@[6] && int_at(g@, 7)->0
            == codes@[7]);
        let a = match code_to_bool(codes[0]) {
            Some(v) => v,
            None => return Err(DeserializeError::CheckBytesError),
        };
        let b = match code_to_bool(codes[1]) {
            Some(v) => v,
            None => return Err(DeserializeError::CheckBytesError),
        };
        let e = match code_to_bool(codes[2]) {
            Some(v) => v,
            None => return Err(DeserializeError::CheckBytesError),
        };
        let t = match codes[3] {
            0 => BuildMetaExportsType::Unset,
            1 => BuildMetaExportsType::Default,
            2 => BuildMetaExportsType::Namespace,
            3 => BuildMetaExportsType::Flagged,
            4 => BuildMetaExportsType::Dynamic,
            _ => return Err(DeserializeError::CheckBytesError),
        };
        let d = match codes[4] {
            0 => BuildMetaDefaultObject::False,
            1 => BuildMetaDefaultObject::Redirect,
            2 => BuildMetaDefaultObject::RedirectWarn,
            _ => return Err(DeserializeError::CheckBytesError),
        };
        let ma = match codes[5] {
            0 => ModuleArgument::Module,
            1 => ModuleArgument::WebpackModule,
            _ => return Err(DeserializeError::CheckBytesError),
        };
        let ea = match codes[6] {
            0 => ExportsArgument::Exports,
            1 => ExportsArgument::WebpackExports,
            _ => return Err(DeserializeError::CheckBytesError),
        };
        let s = match codes[7] {
            0 => None,
            1 => Some(false),
            2 => Some(true),
            _ => return Err(DeserializeError::CheckBytesError),
        };
        Ok(
            BuildMeta {
                strict_harmony_module: a,
                has_top_level_await: b,
                esm: e,
                exports_type: t,
                default_object: d,
                module_argument: ma,
                exports_argument: ea,
                side_effect_free: s,
            },
        )
    }
}

/// A `BuildMeta` comes back from its record unchanged.
pub proof fn lemma_build_meta_round_trip(m: BuildMeta)
    ensures
        build_meta_of(build_meta_record(m)) == Some(m),
{
    let g = build_meta_record(m);
    assert forall|i: int| 0 <= i < 8 implies #[trigger] int_at(g, i) is Some by {}
}

/// The `BuildMeta` that an archive holds, or `CheckBytesError`.
pub open spec fn build_meta_from_archive(b: Seq<u8>) -> Result<BuildMeta, DeserializeError> {
    match decode(b, schema_of(build_meta_record(BuildMeta::default_spec()))) {
        Some(g) => match build_meta_of(g) {
            Some(m) => Ok(m),
            None => Err(DeserializeError::CheckBytesError),
        },
        None => Err(DeserializeError::CheckBytesError),
    }
}

/// The reconstruction function of `BuildMeta` as a polymorphic value: it
/// reads the archive that `BuildMeta` produced of itself and needs nothing
/// from the context.
pub struct BuildMetaReader;

impl<C> DynReconstruct<C, BuildMeta> for BuildMetaReader {
    open spec fn rebuilt(&self, bytes: &[u8], c: C) -> (Result<BuildMeta, DeserializeError>, C) {
        (build_meta_from_archive(bytes@), c)
    }

    fn reconstruct(&self, bytes: &[u8], ctx: &mut C) -> (r: Result<BuildMeta, DeserializeError>) {
        let schema = BuildMeta::schema();
        match check_archive(bytes, schema.as_slice()) {
            Ok(g) => BuildMeta::from_graph(&g),
            Err(e) => Err(e),
        }
    }
}

/// `BuildMeta` as a polymorphic value: tagged `BuildMeta`, archived as its
/// record; it needs nothing from the context.
impl<C> DynArchive<C> for BuildMeta {
    open spec fn tag_of(&self) -> Seq<char> {
        "BuildMeta"@
    }

    open spec fn archived(&self, c: C) -> (Result<Seq<u8>, SerializeError>, C) {
        (Ok(encode(build_meta_record(*self))), c)
    }

    fn dyn_tag(&self) -> (r: String) {
        "BuildMeta".to_owned()
    }

    fn dyn_to_bytes(&self, ctx: &mut C) -> (r: Result<Vec<u8>, SerializeError>) {
        let g = self.to_graph();
        assert(crate::model::handles_valid(g@));
        to_bytes(&g)
    }
}

/// A record of integer fields takes eight bytes per field.
proof fn lemma_int_record_len(g: GraphV, n: nat)
    requires
        n <= g.fields.len(),
        forall|i: int| 0 <= i < n ==> #[trigger] g.fields[i] is Int,
    ensures
        enc_prefix(g, n).out.len() == 8 * n,
    decreases n,
{
    if n > 0 {
        lemma_int_record_len(g, (n - 1) as nat);
        assert(g.fields[n - 1] is Int);
    }
}

/// A `BuildMeta` written to an archive and read back under its schema is
/// the same value.
pub proof fn lemma_build_meta_archive_round_trip(m: BuildMeta)
    ensures
        decode(encode(build_meta_record(m)), schema_of(build_meta_record(m))) is Some,
        build_meta_of(decode(encode(build_meta_record(m)), schema_of(build_meta_record(m)))->0)
            == Some(m),
{
    let g = build_meta_record(m);
    lemma_int_record_len(g, 8);
    lemma_round_trip(g);
    let r = decode(encode(g), schema_of(g))->0;
    assert forall|i: int| 0 <= i < 8 implies r.fields[i] == g.fields[i] by {
        assert(field_restored(g, r, i));
    }
    assert(r.fields =~= g.fields);
    lemma_build_meta_round_trip(m);
    assert(build_meta_of(r) == build_meta_of(g));
}

} // verus!
