//! Slicing a list of names: an offset/limit window, optionally cut into
//! chunks of a fixed size.

use vstd::prelude::*;

verus! {

/// The window `[offset, offset + limit)` of `s`, clipped to its end.
pub open spec fn section_of(s: Seq<String>, offset: int, limit: int) -> Seq<String> {
    if offset + limit > s.len() {
        s.subrange(offset, s.len() as int)
    } else {
        s.subrange(offset, offset + limit)
    }
}

/// `s` cut into consecutive chunks of `size` elements, the last one
/// possibly shorter.
pub open spec fn chunks_of(s: Seq<String>, size: int) -> Seq<Seq<String>>
    decreases s.len(),
{
    if s.len() == 0 || size < 1 {
        Seq::empty()
    } else if size < s.len() {
        seq![s.take(size)] + chunks_of(s.skip(size), size)
    } else {
        seq![s]
    }
}

/// Clones the elements of `v` in `[from, to)`.
fn clone_range(v: &Vec<String>, from: usize, to: usize) -> (r: Vec<String>)
    requires
        from <= to <= v@.len(),
    ensures
        r@ == v@.subrange(from as int, to as int),
{
    let mut r: Vec<String> = Vec::new();
    let mut i = from;
    while i < to
        invariant
            from <= i <= to <= v@.len(),
            r@ == v@.subrange(from as int, i as int),
        decreases to - i,
    {
        r.push(v[i].clone());
        proof {
            assert(r@ =~= v@.subrange(from as int, i + 1));
        }
        i = i + 1;
    }
    r
}

/// The requested window of the list.  The offset must not pass the end
/// (the list index would panic otherwise), and the window bounds must fit
/// the machine's integer type.
pub fn slice_section(strings: &Vec<String>, offset: usize, limit: usize) -> (r: Vec<String>)
    requires
        offset <= strings@.len(),
        offset + limit <= usize::MAX,
    ensures
        r@ == section_of(strings@, offset as int, limit as int),
{
    let end = if limit > strings.len() - offset {
        strings.len()
    } else {
        offset + limit
    };
    clone_range(strings, offset, end)
}

/// The window cut into chunks of `size` names each.
pub fn chunk_strings(section: &Vec<String>, size: usize) -> (r: Vec<Vec<String>>)
    requires
        size >= 1,
    ensures
        r@.map_values(|c: Vec<String>| c@) == chunks_of(section@, size as int),
{
    let mut out: Vec<Vec<String>> = Vec::new();
    let mut index: usize = 0;
    let ghost whole = section@;
    proof {
        assert(whole.skip(0) =~= whole);
        assert(out@.map_values(|c: Vec<String>| c@) =~= Seq::<Seq<String>>::empty());
    }
    while index < section.len()
        invariant
            size >= 1,
            index <= section@.len(),
            section@ == whole,
            chunks_of(whole, size as int) == out@.map_values(|c: Vec<String>| c@) + chunks_of(
                whole.skip(index as int),
                size as int,
            ),
        decreases section@.len() - index,
    {
        let end = if size > section.len() - index {
            section.len()
        } else {
            index + size
        };
        let chunk = clone_range(section, index, end);
        let ghost prev = out@.map_values(|c: Vec<String>| c@);
        let ghost rest = whole.skip(index as int);
        out.push(chunk);
        proof {
            assert(out@.map_values(|c: Vec<String>| c@) =~= prev + seq![chunk@]);
            if size < rest.len() {
                assert(rest.take(size as int) =~= whole.subrange(index as int, end as int));
                assert(rest.skip(size as int) =~= whole.skip(end as int));
                assert(chunks_of(rest, size as int) == seq![rest.take(size as int)] + chunks_of(
                    whole.skip(end as int),
                    size as int,
                ));
            } else {
                assert(rest =~= whole.subrange(index as int, end as int));
                assert(chunks_of(rest, size as int) == seq![rest]);
                assert(whole.skip(end as int) =~= Seq::<String>::empty());
                assert(chunks_of(whole.skip(end as int), size as int) == Seq::<
                    Seq<String>,
                >::empty());
            }
            assert(chunks_of(whole, size as int) =~= out@.map_values(|c: Vec<String>| c@)
                + chunks_of(whole.skip(end as int), size as int));
        }
        index = end;
    }
    proof {
        assert(whole.skip(whole.len() as int) =~= Seq::<String>::empty());
        assert(chunks_of(whole, size as int) =~= out@.map_values(|c: Vec<String>| c@));
    }
    out
}

} // verus!
