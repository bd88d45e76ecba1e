use vstd::prelude::*;

use crate::error::DeserializeError;
use crate::polymorphic::unpack_dyn;

verus! {

/// One concrete type's claim on a polymorphic capability: its stable tag and
/// the function that rebuilds a value of it from its archive.
pub struct Registration<F> {
    pub tag: String,
    pub reconstruct: F,
}

/// A reconstruction function of one concrete type: rebuilds a value from
/// the archive that type produced of itself, with the caller's context.
pub trait DynReconstruct<C, T> {
    /// What rebuilding from `bytes` with context `c` gives, and the context
    /// afterwards.
    spec fn rebuilt(&self, bytes: &[u8], c: C) -> (Result<T, DeserializeError>, C);

    fn reconstruct(&self, bytes: &[u8], ctx: &mut C) -> (r: Result<T, DeserializeError>)
        ensures
            (r, *final(ctx)) == self.rebuilt(bytes, *old(ctx)),
    ;
}

/// Building a registry failed: the record at this index repeats the tag of
/// an earlier one.
#[derive(Debug, Clone, Copy, PartialEq, Eq, Structural)]
pub enum RegistryError {
    DuplicateTag(usize),
}

/// Resolves tags to reconstruction functions; tags are unique.
pub struct Registry<F> {
    entries: Vec<Registration<F>>,
}

/// No two registrations share a tag.
pub open spec fn distinct_tags<F>(entries: Seq<Registration<F>>) -> bool {
    forall|i: int, j: int|
        0 <= i < entries.len() && 0 <= j < entries.len() && i != j ==> #[trigger] entries[i].tag@
            != #[trigger] entries[j].tag@
}

/// Without a repeated tag among the first `n`, those tags are pairwise distinct.
proof fn lemma_no_duplicate_distinct(tags: Seq<Seq<char>>, n: nat)
    requires
        n <= tags.len(),
        first_duplicate(tags, n) is None,
    ensures
        forall|i: int, j: int| 0 <= i < j < n ==> tags[i] != tags[j],
    decreases n,
{
    if n > 0 {
        lemma_no_duplicate_distinct(tags, (n - 1) as nat);
    }
}

pub open spec fn tags_of<F>(records: Seq<Registration<F>>) -> Seq<Seq<char>> {
    records.map_values(|r: Registration<F>| r.tag@)
}

/// The index of the first tag among `tags[0..n]` that repeats an earlier one.
pub open spec fn first_duplicate(tags: Seq<Seq<char>>, n: nat) -> Option<nat>
    decreases n,
{
    if n == 0 {
        None
    } else {
        match first_duplicate(tags, (n - 1) as nat) {
            Some(j) => Some(j),
            None => if exists|i: int| 0 <= i < n - 1 && #[trigger] tags[i] == tags[n - 1] {
                Some((n - 1) as nat)
            } else {
                None
            },
        }
    }
}

/// Two registrations under one tag make the build fail: whatever else the
/// records hold, `first_duplicate` finds a repeated tag.
pub proof fn lemma_shared_tag_fails_build(tags: Seq<Seq<char>>, i: int, j: int)
    requires
        0 <= i < j < tags.len(),
        tags[i] == tags[j],
    ensures
        first_duplicate(tags, tags.len()) is Some,
    decreases tags.len(),
{
    lemma_duplicate_stays(tags, (j + 1) as nat, tags.len(), i, j);
}

proof fn lemma_duplicate_stays(tags: Seq<Seq<char>>, k: nat, n: nat, i: int, j: int)
    requires
        0 <= i < j < k <= n <= tags.len(),
        tags[i] == tags[j],
    ensures
        first_duplicate(tags, n) is Some,
    decreases n,
{
    if n > k {
        lemma_duplicate_stays(tags, k, (n - 1) as nat, i, j);
    } else if first_duplicate(tags, (n - 1) as nat) is None {
        if j < n - 1 {
            lemma_duplicate_stays(tags, (j + 1) as nat, (n - 1) as nat, i, j);
        } else {
            assert(0 <= i < n - 1 && tags[i] == tags[n - 1]);
        }
    }
}

impl<F> Registry<F> {
    #[verifier::type_invariant]
    closed spec fn tags_unique(self) -> bool {
        distinct_tags(self.entries@)
    }

    /// The registrations, in the order they were given.
    pub closed spec fn entries(&self) -> Seq<Registration<F>> {
        self.entries@
    }

    /// Folds registration records into a registry. A tag that repeats an
    /// earlier record's tag is refused, naming the first such record.
    pub fn build(records: Vec<Registration<F>>) -> (r: Result<Self, RegistryError>)
        ensures
            match first_duplicate(tags_of(records@), records@.len()) {
                None => match r {
                    Ok(reg) => reg.entries() == records@ && distinct_tags(reg.entries()),
                    Err(_) => false,
                },
                Some(j) => r == Err::<Self, RegistryError>(RegistryError::DuplicateTag(j as usize)),
            },
    {
        let ghost tags = tags_of(records@);
        let mut j: usize = 0;
        while j < records.len()
            invariant
                j <= records@.len(),
                tags == tags_of(records@),
                first_duplicate(tags, j as nat) is None,
            decreases records@.len() - j,
        {
            let mut i: usize = 0;
            while i < j
                invariant
                    i <= j < records@.len(),
                    tags == tags_of(records@),
                    first_duplicate(tags, j as nat) is None,
                    forall|k: int| 0 <= k < i ==> tags[k] != tags[j as int],
                decreases j - i,
            {
                assert(tags[i as int] == records@[i as int].tag@);
                assert(tags[j as int] == records@[j as int].tag@);
                if records[i].tag == records[j].tag {
                    assert(tags[i as int] == tags[j as int]);
                    assert(first_duplicate(tags, (j + 1) as nat) == Some(j as nat)) by {
                        assert(first_duplicate(tags, j as nat) is None);
                        assert(0 <= i < j && tags[i as int] == tags[((j + 1) as nat - 1) as int]);
                    }
                    proof {
                        lemma_first_duplicate_kept(tags, (j + 1) as nat, records@.len(), j as nat);
                    }
                    return Err(RegistryError::DuplicateTag(j));
                }
                i = i + 1;
            }
            assert(first_duplicate(tags, (j + 1) as nat) is None);
            j = j + 1;
        }
        proof {
            lemma_no_duplicate_distinct(tags, records@.len());
            assert forall|a: int, b: int|
                0 <= a < records@.len() && 0 <= b < records@.len() && a != b implies #[trigger] records@[a].tag@
                    != #[trigger] records@[b].tag@ by {
                assert(tags[a] == records@[a].tag@ && tags[b] == records@[b].tag@);
                if a > b {
                    assert(tags[b] != tags[a]);
                }
            }
        }
        Ok(Registry { entries: records })
    }

    /// The reconstruction function registered under `tag`, if any: that of
    /// the one registration with this tag.
    pub fn lookup(&self, tag: &String) -> (r: Option<&F>)
        ensures
            match r {
                Some(f) => (exists|i: int|
                    0 <= i < self.entries().len() && #[trigger] self.entries()[i].tag@ == tag@)
                    && forall|i: int|
                    0 <= i < self.entries().len() && #[trigger] self.entries()[i].tag@ == tag@
                        ==> self.entries()[i].reconstruct == *f,
                None => forall|i: int|
                    0 <= i < self.entries().len() ==> #[trigger] self.entries()[i].tag@ != tag@,
            },
    {
        proof {
            use_type_invariant(self);
        }
        let mut i: usize = 0;
        while i < self.entries.len()
            invariant
                i <= self.entries@.len(),
                distinct_tags(self.entries@),
                forall|k: int| 0 <= k < i ==> #[trigger] self.entries@[k].tag@ != tag@,
            decreases self.entries@.len() - i,
        {
            if self.entries[i].tag == *tag {
                assert(self.entries()[i as int].tag@ == tag@);
                return Some(&self.entries[i].reconstruct);
            }
            i = i + 1;
        }
        None
    }

    /// Unpacks a polymorphic payload and finds the function registered for
    /// its tag. Malformed payload bytes give `CheckBytesError`; a tag that no
    /// record claims gives `UnsupportedType`.
    pub fn resolve(&self, payload: &[u8]) -> (r: Result<(&F, Vec<u8>), DeserializeError>)
        ensures
            match crate::polymorphic::dyn_decode(payload@) {
                None => r == Err::<(&F, Vec<u8>), DeserializeError>(
                    DeserializeError::CheckBytesError,
                ),
                Some((tag, data)) => match r {
                    Ok((f, d)) => d@ == data && (exists|i: int|
                        0 <= i < self.entries().len() && #[trigger] self.entries()[i].tag@ == tag)
                        && forall|i: int|
                        0 <= i < self.entries().len() && #[trigger] self.entries()[i].tag@ == tag
                            ==> self.entries()[i].reconstruct == *f,
                    Err(e) => e == DeserializeError::UnsupportedType && forall|i: int|
                        0 <= i < self.entries().len() ==> #[trigger] self.entries()[i].tag@
                            != tag,
                },
            },
    {
        let p = match unpack_dyn(payload) {
            Ok(p) => p,
            Err(e) => return Err(e),
        };
        match self.lookup(&p.tag) {
            Some(f) => Ok((f, p.data)),
            None => Err(DeserializeError::UnsupportedType),
        }
    }
}

impl<F> Registry<F> {
    /// Rebuilds a polymorphic value from its archived payload: unpacks the
    /// (tag, bytes) pair, finds the function registered for the tag and calls
    /// it once on the bytes with `ctx`, handing back what it returns. A
    /// malformed payload gives `CheckBytesError` and an unknown tag
    /// `UnsupportedType`; in both cases the context is not touched.
    pub fn deserialize_dyn<C, T>(&self, payload: &[u8], ctx: &mut C) -> (r: Result<
        T,
        DeserializeError,
    >) where F: DynReconstruct<C, T>
        ensures
            match crate::polymorphic::dyn_decode(payload@) {
                None => r == Err::<T, DeserializeError>(DeserializeError::CheckBytesError)
                    && *final(ctx) == *old(ctx),
                Some((tag, data)) => if exists|i: int|
                    0 <= i < self.entries().len() && #[trigger] self.entries()[i].tag@ == tag {
                    exists|d: &[u8]|
                        d@ == data && forall|i: int|
                            0 <= i < self.entries().len() && self.entries()[i].tag@ == tag ==> (
                            r,
                            *final(ctx),
                        ) == #[trigger] self.entries()[i].reconstruct.rebuilt(d, *old(ctx))
                } else {
                    r == Err::<T, DeserializeError>(DeserializeError::UnsupportedType)
                        && *final(ctx) == *old(ctx)
                },
            },
    {
        match self.resolve(payload) {
            Ok((f, data)) => {
                let bytes = data.as_slice();
                let r = f.reconstruct(bytes, ctx);
                assert(forall|i: int|
                    0 <= i < self.entries().len() && self.entries()[i].tag@
                        == crate::polymorphic::dyn_decode(payload@)->0 .0 ==> (r, *ctx)
                        == #[trigger] self.entries()[i].reconstruct.rebuilt(bytes, *old(ctx)));
                r
            },
            Err(e) => Err(e),
        }
    }
}

/// A repeated tag found among the first `k` stays the first one found.
proof fn lemma_first_duplicate_kept(tags: Seq<Seq<char>>, k: nat, n: nat, j: nat)
    requires
        k <= n,
        first_duplicate(tags, k) == Some(j),
    ensures
        first_duplicate(tags, n) == Some(j),
    decreases n - k,
{
    if n > k {
        lemma_first_duplicate_kept(tags, k, (n - 1) as nat, j);
    }
}

} // verus!
