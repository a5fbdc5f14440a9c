//! Splitting and joining character sequences on a separator.

use vstd::prelude::*;

verus! {

/// The pieces of `s` between occurrences of `sep`, as `str::split` yields
/// them (an empty string has one empty piece).
pub open spec fn split_on(s: Seq<char>, sep: char) -> Seq<Seq<char>>
    decreases s.len(),
{
    if s.len() == 0 {
        seq![Seq::empty()]
    } else {
        let parts = split_on(s.drop_last(), sep);
        if s.last() == sep {
            parts.push(Seq::empty())
        } else {
            parts.update(parts.len() - 1, parts.last().push(s.last()))
        }
    }
}

/// The pieces joined with `sep` between consecutive pieces.
pub open spec fn join_with(parts: Seq<Seq<char>>, sep: char) -> Seq<char>
    decreases parts.len(),
{
    if parts.len() == 0 {
        Seq::empty()
    } else if parts.len() == 1 {
        parts[0]
    } else {
        join_with(parts.drop_last(), sep).push(sep) + parts.last()
    }
}

/// `split_on` always yields at least one piece, none holding the separator.
pub proof fn lemma_split_on(s: Seq<char>, sep: char)
    ensures
        split_on(s, sep).len() >= 1,
        forall|i: int| 0 <= i < split_on(s, sep).len() ==> !(#[trigger] split_on(s, sep)[i]).contains(sep),
    decreases s.len(),
{
    if s.len() > 0 {
        lemma_split_on(s.drop_last(), sep);
        let parts = split_on(s.drop_last(), sep);
        if s.last() != sep {
            let last = parts.last();
            assert forall|i: int| 0 <= i < split_on(s, sep).len() implies !(#[trigger] split_on(s, sep)[i]).contains(sep) by {
                if i == parts.len() - 1 {
                    assert(!last.contains(sep));
                    if last.push(s.last()).contains(sep) {
                        let k = choose|k: int| 0 <= k < last.push(s.last()).len() && last.push(s.last())[k] == sep;
                        if k < last.len() {
                            assert(last[k] == sep);
                        }
                    }
                }
            }
        } else {
            assert forall|i: int| 0 <= i < split_on(s, sep).len() implies !(#[trigger] split_on(s, sep)[i]).contains(sep) by {
                if i < parts.len() {
                    assert(split_on(s, sep)[i] == parts[i]);
                }
            }
        }
    }
}

/// Splitting `prefix + piece` where `piece` holds no separator extends the
/// last piece of `prefix`.
proof fn lemma_split_append_piece(prefix: Seq<char>, piece: Seq<char>, sep: char)
    requires
        !piece.contains(sep),
    ensures
        split_on(prefix + piece, sep) == split_on(prefix, sep).update(
            split_on(prefix, sep).len() - 1,
            split_on(prefix, sep).last() + piece,
        ),
    decreases piece.len(),
{
    lemma_split_on(prefix, sep);
    if piece.len() == 0 {
        assert(prefix + piece =~= prefix);
        let parts = split_on(prefix, sep);
        assert(parts.last() + piece =~= parts.last());
        assert(parts.update(parts.len() - 1, parts.last()) =~= parts);
    } else {
        let init = piece.drop_last();
        assert(!init.contains(sep)) by {
            if init.contains(sep) {
                let k = choose|k: int| 0 <= k < init.len() && init[k] == sep;
                assert(piece[k] == sep);
            }
        }
        lemma_split_append_piece(prefix, init, sep);
        assert((prefix + piece).drop_last() =~= prefix + init);
        assert((prefix + piece).last() == piece.last());
        assert(piece.last() != sep) by {
            assert(piece[piece.len() - 1] == piece.last());
        }
        let parts = split_on(prefix, sep);
        let mid = parts.update(parts.len() - 1, parts.last() + init);
        assert(mid.last() == parts.last() + init);
        assert(mid.update(mid.len() - 1, mid.last().push(piece.last())) =~= parts.update(
            parts.len() - 1,
            parts.last() + piece,
        )) by {
            assert(parts.last() + init + seq![piece.last()] =~= parts.last() + piece);
            assert((parts.last() + init).push(piece.last()) =~= parts.last() + piece);
        }
    }
}

/// Splitting a join of separator-free pieces gives the pieces back.
pub proof fn lemma_split_join(parts: Seq<Seq<char>>, sep: char)
    requires
        parts.len() >= 1,
        forall|i: int| 0 <= i < parts.len() ==> !(#[trigger] parts[i]).contains(sep),
    ensures
        split_on(join_with(parts, sep), sep) == parts,
    decreases parts.len(),
{
    if parts.len() == 1 {
        lemma_split_append_piece(Seq::empty(), parts[0], sep);
        assert(Seq::<char>::empty() + parts[0] =~= parts[0]);
        assert(split_on(Seq::<char>::empty(), sep) =~= seq![Seq::<char>::empty()]);
        assert(Seq::<char>::empty() + parts[0] =~= parts[0]);
        assert(seq![Seq::<char>::empty()].update(0, Seq::<char>::empty() + parts[0]) =~= parts);
    } else {
        let init = parts.drop_last();
        lemma_split_join(init, sep);
        let j = join_with(init, sep).push(sep);
        assert(j.drop_last() =~= join_with(init, sep));
        assert(split_on(j, sep) =~= init.push(Seq::empty()));
        assert(!parts.last().contains(sep)) by {
            assert(parts[parts.len() - 1] == parts.last());
        }
        lemma_split_append_piece(j, parts.last(), sep);
        let q = init.push(Seq::<char>::empty());
        assert(Seq::<char>::empty() + parts.last() =~= parts.last());
        assert(q.update(q.len() - 1, q.last() + parts.last()) =~= parts);
    }
}

/// Splits a character sequence on `sep`, as `str::split` does.
pub fn split_chars(s: &Vec<char>, sep: char) -> (parts: Vec<Vec<char>>)
    ensures
        parts@.map_values(|v: Vec<char>| v@) == split_on(s@, sep),
{
    let mut parts: Vec<Vec<char>> = Vec::new();
    let mut current: Vec<char> = Vec::new();
    let mut i: usize = 0;
    proof {
        assert(s@.take(0) =~= Seq::<char>::empty());
        assert(parts@.map_values(|v: Vec<char>| v@).push(current@) =~= seq![Seq::<char>::empty()]);
    }
    while i < s.len()
        invariant
            i <= s@.len(),
            parts@.map_values(|v: Vec<char>| v@).push(current@) == split_on(s@.take(i as int), sep),
        decreases s@.len() - i,
    {
        let ghost pv = parts@.map_values(|v: Vec<char>| v@);
        proof {
            assert(s@.take(i + 1).drop_last() =~= s@.take(i as int));
            assert(s@.take(i + 1).last() == s@[i as int]);
        }
        let c = s[i];
        if c == sep {
            let done = current;
            parts.push(done);
            current = Vec::new();
            proof {
                assert(parts@.map_values(|v: Vec<char>| v@) =~= pv.push(done@));
                assert(parts@.map_values(|v: Vec<char>| v@).push(current@) =~= pv.push(done@).push(Seq::<char>::empty()));
            }
        } else {
            let ghost before = current@;
            current.push(c);
            proof {
                assert(parts@.map_values(|v: Vec<char>| v@).push(current@) =~= pv.push(before).update(pv.len() as int, before.push(c)));
            }
        }
        i = i + 1;
    }
    assert(s@.take(s@.len() as int) =~= s@);
    let ghost pv = parts@.map_values(|v: Vec<char>| v@);
    let last = current;
    parts.push(last);
    assert(parts@.map_values(|v: Vec<char>| v@) =~= pv.push(last@));
    parts
}

} // verus!
