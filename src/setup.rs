use vstd::prelude::*;

verus! {

/// Why a demultiplexer or a multiplexer could not be set up.
#[derive(Clone, Copy, Debug, PartialEq, Eq, Structural)]
pub enum SetupError {
    /// No tag was declared.
    NoTags,
    /// A declared tag names no variant of the tagged type.
    UnknownTag(usize),
    /// A tag was declared twice.
    DuplicateTag(usize),
    /// A variant has no tag of its own, and discarding unmatched values was
    /// not asked for.
    NonExhaustive(usize),
}

/// Every declared tag names a variant.
pub open spec fn all_known(tags: Seq<usize>, variant_count: usize) -> bool {
    forall|i: int| 0 <= i < tags.len() ==> tags[i] < variant_count
}

/// Every variant has a declared tag.
pub open spec fn covers(tags: Seq<usize>, variant_count: usize) -> bool {
    forall|v: usize| v < variant_count ==> tags.contains(v)
}

/// The tags form a valid configuration: at least one, each naming a
/// variant, none twice, and all variants covered unless unmatched values may
/// be discarded.
pub open spec fn valid_tags(tags: Seq<usize>, variant_count: usize, discard_rest: bool) -> bool {
    &&& tags.len() > 0
    &&& all_known(tags, variant_count)
    &&& tags.no_duplicates()
    &&& (discard_rest || covers(tags, variant_count))
}

/// `tags` is rejected with `e`: the first problem in this order, where
/// "first" goes by position for tags and by value for variants. No tags; a
/// tag that names no variant; a tag that repeats an earlier one; unless
/// `discard_rest` is set, a variant without a tag.
pub open spec fn rejected_with(tags: Seq<usize>, variant_count: usize, discard_rest: bool, e: SetupError) -> bool {
    match e {
        SetupError::NoTags => tags.len() == 0,
        SetupError::UnknownTag(t) => tags.len() > 0 && exists|i: int|
            0 <= i < tags.len() && tags[i] == t && t >= variant_count
            && all_known(#[trigger] tags.take(i), variant_count),
        SetupError::DuplicateTag(t) => tags.len() > 0 && all_known(tags, variant_count)
            && exists|i: int|
            0 <= i < tags.len() && tags[i] == t && (#[trigger] tags.take(i)).no_duplicates()
            && exists|j: int| 0 <= j < i && tags[j] == t,
        SetupError::NonExhaustive(v) => tags.len() > 0 && all_known(tags, variant_count)
            && tags.no_duplicates() && !discard_rest && v < variant_count && !tags.contains(v)
            && forall|w: usize| w < v ==> tags.contains(w),
    }
}

/// Checks a tag declaration before anything is created.
pub fn check_tags(tags: &Vec<usize>, variant_count: usize, discard_rest: bool) -> (r: Result<(), SetupError>)
    ensures
        r is Ok <==> valid_tags(tags@, variant_count, discard_rest),
        r matches Err(e) ==> rejected_with(tags@, variant_count, discard_rest, e),
{
    if tags.len() == 0 {
        return Err(SetupError::NoTags);
    }
    let mut i: usize = 0;
    while i < tags.len()
        invariant
            i <= tags@.len(),
            all_known(tags@.take(i as int), variant_count),
        decreases tags@.len() - i,
    {
        if tags[i] >= variant_count {
            assert(all_known(tags@.take(i as int), variant_count));
            return Err(SetupError::UnknownTag(tags[i]));
        }
        assert(tags@.take(i + 1) =~= tags@.take(i as int).push(tags@[i as int]));
        i = i + 1;
    }
    assert(tags@.take(i as int) =~= tags@);
    let mut i: usize = 0;
    while i < tags.len()
        invariant
            i <= tags@.len(),
            all_known(tags@, variant_count),
            tags@.take(i as int).no_duplicates(),
        decreases tags@.len() - i,
    {
        let mut j: usize = 0;
        while j < i
            invariant
                j <= i < tags@.len(),
                all_known(tags@, variant_count),
                tags@.take(i as int).no_duplicates(),
                forall|k: int| 0 <= k < j ==> tags@[k] != tags@[i as int],
            decreases i - j,
        {
            if tags[j] == tags[i] {
                assert(!tags@.no_duplicates()) by {
                    assert(tags@[j as int] == tags@[i as int]);
                }
                assert(tags@.take(i as int).no_duplicates());
                return Err(SetupError::DuplicateTag(tags[i]));
            }
            j = j + 1;
        }
        assert(tags@.take(i + 1) =~= tags@.take(i as int).push(tags@[i as int]));
        i = i + 1;
    }
    assert(tags@.take(i as int) =~= tags@);
    if discard_rest {
        return Ok(());
    }
    let mut v: usize = 0;
    while v < variant_count
        invariant
            v <= variant_count,
            !discard_rest,
            tags@.len() > 0,
            all_known(tags@, variant_count),
            tags@.no_duplicates(),
            forall|w: usize| w < v ==> tags@.contains(w),
        decreases variant_count - v,
    {
        let mut k: usize = 0;
        let mut found = false;
        while k < tags.len()
            invariant
                k <= tags@.len(),
                v < variant_count,
                !discard_rest,
                tags@.len() > 0,
                all_known(tags@, variant_count),
                tags@.no_duplicates(),
                forall|w: usize| w < v ==> tags@.contains(w),
                found ==> tags@.contains(v),
                !found ==> forall|m: int| 0 <= m < k ==> tags@[m] != v,
            decreases tags@.len() - k,
        {
            if tags[k] == v {
                found = true;
            }
            k = k + 1;
        }
        if !found {
            assert(!tags@.contains(v));
            assert(!covers(tags@, variant_count));
            return Err(SetupError::NonExhaustive(v));
        }
        v = v + 1;
    }
    Ok(())
}

} // verus!

verus! {

/// The position of `tag` among `tags`, if it is there.
pub(crate) fn position(tags: &Vec<usize>, tag: usize) -> (r: Option<usize>)
    ensures
        r matches Some(i) ==> i < tags@.len() && tags@[i as int] == tag,
        r is None <==> !tags@.contains(tag),
{
    let mut i: usize = 0;
    while i < tags.len()
        invariant
            i <= tags@.len(),
            forall|k: int| 0 <= k < i ==> tags@[k] != tag,
        decreases tags@.len() - i,
    {
        if tags[i] == tag {
            return Some(i);
        }
        i = i + 1;
    }
    None
}

} // verus!
