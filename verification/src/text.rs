//! Text primitives over the characters of a string: prefix and suffix tests,
//! the lexical order that the index keeps its names in, and splitting at a
//! separator.

use vstd::prelude::*;
use vstd::std_specs::iter::IteratorSpec;

verus! {

/// How one name stands to another in lexical order.
#[derive(Clone, Copy, Debug, PartialEq, Eq, Structural)]
pub enum Lexical {
    Before,
    Same,
    After,
}

/// Strict lexical order on character sequences: the first position at which
/// the two differ decides, by code point; a proper prefix comes first.
pub open spec fn precedes(a: Seq<char>, b: Seq<char>) -> bool
    decreases a.len(),
{
    if b.len() == 0 {
        false
    } else if a.len() == 0 {
        true
    } else if a[0] != b[0] {
        (a[0] as u32) < (b[0] as u32)
    } else {
        precedes(a.drop_first(), b.drop_first())
    }
}

/// The three-way outcome of comparing `a` with `b`.
pub open spec fn lexical(a: Seq<char>, b: Seq<char>) -> Lexical {
    if a == b {
        Lexical::Same
    } else if precedes(a, b) {
        Lexical::Before
    } else {
        Lexical::After
    }
}

/// No sequence precedes itself.
pub proof fn lemma_precedes_irreflexive(a: Seq<char>)
    ensures
        !precedes(a, a),
    decreases a.len(),
{
    if a.len() > 0 {
        lemma_precedes_irreflexive(a.drop_first());
    }
}

/// The order is transitive.
pub proof fn lemma_precedes_transitive(a: Seq<char>, b: Seq<char>, c: Seq<char>)
    requires
        precedes(a, b),
        precedes(b, c),
    ensures
        precedes(a, c),
    decreases a.len(),
{
    if a.len() > 0 && b.len() > 0 && c.len() > 0 && a[0] == b[0] && b[0] == c[0] {
        lemma_precedes_transitive(a.drop_first(), b.drop_first(), c.drop_first());
    }
}

/// Two different sequences are ordered one way or the other.
pub proof fn lemma_precedes_connected(a: Seq<char>, b: Seq<char>)
    requires
        a != b,
    ensures
        precedes(a, b) || precedes(b, a),
    decreases a.len(),
{
    if a.len() == 0 || b.len() == 0 {
        if a.len() == 0 && b.len() == 0 {
            assert(a =~= b);
        }
    } else if a[0] == b[0] {
        if a.drop_first() == b.drop_first() {
            assert(a =~= seq![a[0]] + a.drop_first());
            assert(b =~= seq![b[0]] + b.drop_first());
        }
        lemma_precedes_connected(a.drop_first(), b.drop_first());
    } else {
        vstd::utf8::char_u32_cast(a[0], a[0] as u32);
        vstd::utf8::char_u32_cast(b[0], b[0] as u32);
    }
}

/// Comparing from position `i` on decides the whole comparison when the two
/// sequences agree before `i`.
proof fn lemma_precedes_skip(a: Seq<char>, b: Seq<char>, i: int)
    requires
        0 <= i <= a.len(),
        i <= b.len(),
        a.take(i) == b.take(i),
    ensures
        precedes(a, b) == precedes(a.skip(i), b.skip(i)),
    decreases i,
{
    if i == 0 {
        assert(a.skip(0) =~= a);
        assert(b.skip(0) =~= b);
    } else {
        assert(a.take(i - 1) =~= a.take(i).take(i - 1));
        assert(b.take(i - 1) =~= b.take(i).take(i - 1));
        lemma_precedes_skip(a, b, i - 1);
        let x = a.skip(i - 1);
        let y = b.skip(i - 1);
        assert(x[0] == a.take(i)[i - 1]);
        assert(y[0] == b.take(i)[i - 1]);
        assert(x.drop_first() =~= a.skip(i));
        assert(y.drop_first() =~= b.skip(i));
    }
}

/// Compares two strings in lexical order, character by character.
pub fn compare_names(a: &str, b: &str) -> (r: Lexical)
    ensures
        r == lexical(a@, b@),
{
    let mut left = a.chars();
    let mut right = b.chars();
    let ghost mut i: int = 0;
    loop
        invariant
            0 <= i <= a@.len(),
            i <= b@.len(),
            left.remaining() == a@.skip(i),
            right.remaining() == b@.skip(i),
            a@.take(i) == b@.take(i),
        decreases a@.len() - i,
    {
        proof {
            lemma_precedes_skip(a@, b@, i);
            lemma_precedes_skip(b@, a@, i);
        }
        let x = left.next();
        let y = right.next();
        match (x, y) {
            (None, None) => {
                assert(a@ =~= a@.take(i));
                assert(b@ =~= b@.take(i));
                return Lexical::Same;
            },
            (None, Some(_)) => {
                return Lexical::Before;
            },
            (Some(_), None) => {
                return Lexical::After;
            },
            (Some(c), Some(d)) => {
                assert(c == a@[i] && d == b@[i]);
                if c != d {
                    if (c as u32) < (d as u32) {
                        return Lexical::Before;
                    } else {
                        return Lexical::After;
                    }
                }
                proof {
                    assert(a@.take(i + 1) =~= a@.take(i).push(c));
                    assert(b@.take(i + 1) =~= b@.take(i).push(d));
                    assert(a@.skip(i).drop_first() =~= a@.skip(i + 1));
                    assert(b@.skip(i).drop_first() =~= b@.skip(i + 1));
                    i = i + 1;
                }
            },
        }
    }
}

/// Whether `s` begins with `prefix`.
pub fn starts_with(s: &str, prefix: &str) -> (r: bool)
    ensures
        r == prefix@.is_prefix_of(s@),
{
    let mut text = s.chars();
    let mut pattern = prefix.chars();
    let ghost mut i: int = 0;
    loop
        invariant
            0 <= i <= prefix@.len(),
            i <= s@.len(),
            text.remaining() == s@.skip(i),
            pattern.remaining() == prefix@.skip(i),
            s@.take(i) == prefix@.take(i),
        decreases prefix@.len() - i,
    {
        match pattern.next() {
            None => {
                assert(prefix@ =~= prefix@.take(i));
                assert(s@.take(i) =~= s@.subrange(0, i));
                return true;
            },
            Some(c) => {
                match text.next() {
                    None => {
                        return false;
                    },
                    Some(d) => {
                        assert(c == prefix@[i] && d == s@[i]);
                        if c != d {
                            assert(prefix@.is_prefix_of(s@) ==> s@.subrange(
                                0,
                                prefix@.len() as int,
                            )[i] == prefix@[i]);
                            return false;
                        }
                        proof {
                            assert(s@.take(i + 1) =~= s@.take(i).push(d));
                            assert(prefix@.take(i + 1) =~= prefix@.take(i).push(c));
                            assert(s@.skip(i).drop_first() =~= s@.skip(i + 1));
                            assert(prefix@.skip(i).drop_first() =~= prefix@.skip(i + 1));
                            i = i + 1;
                        }
                    },
                }
            },
        }
    }
}

/// Whether `s` ends with `suffix`.
pub fn ends_with(s: &str, suffix: &str) -> (r: bool)
    ensures
        r == suffix@.is_suffix_of(s@),
{
    let n = s.unicode_len();
    let m = suffix.unicode_len();
    if m > n {
        return false;
    }
    let lead: usize = n - m;
    let mut text = s.chars();
    let mut skipped: usize = 0;
    while skipped < lead
        invariant
            skipped <= lead,
            lead + m == s@.len(),
            text.remaining() == s@.skip(skipped as int),
        decreases lead - skipped,
    {
        let _ = text.next();
        proof {
            assert(s@.skip(skipped as int).drop_first() =~= s@.skip(skipped + 1));
        }
        skipped = skipped + 1;
    }
    let ghost tail = s@.skip(lead as int);
    assert(tail =~= s@.subrange(s@.len() - suffix@.len(), s@.len() as int));
    let mut pattern = suffix.chars();
    let ghost mut i: int = 0;
    loop
        invariant
            0 <= i <= suffix@.len(),
            tail.len() == suffix@.len(),
            tail == s@.subrange(s@.len() - suffix@.len(), s@.len() as int),
            suffix@.len() <= s@.len(),
            text.remaining() == tail.skip(i),
            pattern.remaining() == suffix@.skip(i),
            tail.take(i) == suffix@.take(i),
        decreases suffix@.len() - i,
    {
        match pattern.next() {
            None => {
                assert(suffix@ =~= suffix@.take(i));
                assert(tail =~= tail.take(i));
                return true;
            },
            Some(c) => {
                let y = text.next();
                assert(y == Some(tail[i]));
                let d = y.unwrap();
                if c != d {
                    assert(suffix@[i] != tail[i]);
                    return false;
                }
                proof {
                    assert(tail.take(i + 1) =~= tail.take(i).push(d));
                    assert(suffix@.take(i + 1) =~= suffix@.take(i).push(c));
                    assert(tail.skip(i).drop_first() =~= tail.skip(i + 1));
                    assert(suffix@.skip(i).drop_first() =~= suffix@.skip(i + 1));
                    i = i + 1;
                }
            },
        }
    }
}

/// The pieces of `s` between occurrences of `sep`, in order. There is always
/// one piece more than there are separators; a piece may be empty.
pub open spec fn split_spec(s: Seq<char>, sep: char) -> Seq<Seq<char>>
    decreases s.len(),
{
    if s.len() == 0 {
        seq![Seq::<char>::empty()]
    } else {
        let init = split_spec(s.drop_last(), sep);
        if s.last() == sep {
            init.push(Seq::<char>::empty())
        } else {
            init.update(init.len() - 1, init.last().push(s.last()))
        }
    }
}

/// The pieces put back together, with `sep` between neighbours.
pub open spec fn join_spec(pieces: Seq<Seq<char>>, sep: char) -> Seq<char>
    decreases pieces.len(),
{
    if pieces.len() == 0 {
        Seq::<char>::empty()
    } else if pieces.len() == 1 {
        pieces[0]
    } else {
        join_spec(pieces.drop_last(), sep).push(sep) + pieces.last()
    }
}

/// Splitting loses nothing and leaves no separator inside a piece: joining
/// the pieces gives the text back, and no piece holds `sep`.
pub proof fn lemma_split_inverts_join(s: Seq<char>, sep: char)
    ensures
        split_spec(s, sep).len() >= 1,
        join_spec(split_spec(s, sep), sep) == s,
        forall|k: int|
            0 <= k < split_spec(s, sep).len() ==> !(#[trigger] split_spec(s, sep)[k]).contains(sep),
    decreases s.len(),
{
    let pieces = split_spec(s, sep);
    if s.len() == 0 {
        assert(join_spec(pieces, sep) =~= s);
    } else {
        let init = split_spec(s.drop_last(), sep);
        lemma_split_inverts_join(s.drop_last(), sep);
        if s.last() == sep {
            assert(pieces.drop_last() =~= init);
            assert(join_spec(pieces, sep) =~= s.drop_last().push(sep));
            assert(s =~= s.drop_last().push(s.last()));
        } else {
            let grown = init.last().push(s.last());
            if init.len() == 1 {
                assert(join_spec(init, sep) == init[0]);
                assert(join_spec(pieces, sep) == grown);
            } else {
                assert(pieces.drop_last() =~= init.drop_last());
                assert(join_spec(pieces, sep) =~= join_spec(init, sep).push(s.last()));
            }
            assert(s =~= s.drop_last().push(s.last()));
            assert forall|k: int| 0 <= k < pieces.len() implies !(#[trigger] pieces[k]).contains(
                sep,
            ) by {
                if k == pieces.len() - 1 {
                    assert(!init[k].contains(sep));
                    if grown.contains(sep) {
                        let j = choose|j: int| 0 <= j < grown.len() && grown[j] == sep;
                        assert(init[k][j] == sep);
                    }
                } else {
                    assert(!init[k].contains(sep));
                }
            }
        }
    }
}

/// Splits `s` at every `sep`.
pub fn split(s: &str, sep: char) -> (pieces: Vec<String>)
    ensures
        pieces.deep_view() == split_spec(s@, sep),
{
    let n = s.unicode_len();
    let mut pieces: Vec<String> = Vec::new();
    let mut it = s.chars();
    let mut start: usize = 0;
    let mut i: usize = 0;
    assert(s@.take(0) =~= Seq::<char>::empty());
    assert(pieces.deep_view().push(s@.subrange(0, 0)) =~= seq![Seq::<char>::empty()]);
    while i < n
        invariant
            n == s@.len(),
            start <= i <= n,
            it.remaining() == s@.skip(i as int),
            split_spec(s@.take(i as int), sep) == pieces.deep_view().push(
                s@.subrange(start as int, i as int),
            ),
        decreases n - i,
    {
        let next = it.next();
        assert(next == Some(s@[i as int]));
        let c = next.unwrap();
        let ghost before = pieces.deep_view();
        let ghost current = s@.subrange(start as int, i as int);
        proof {
            assert(s@.skip(i as int).drop_first() =~= s@.skip(i + 1));
            assert(s@.take(i + 1).drop_last() =~= s@.take(i as int));
            assert(s@.take(i + 1).last() == c);
        }
        if c == sep {
            let piece = s.substring_char(start, i).to_owned();
            pieces.push(piece);
            start = i + 1;
            proof {
                assert(pieces.deep_view() =~= before.push(current));
                assert(s@.subrange(i + 1, i + 1) =~= Seq::<char>::empty());
            }
        } else {
            proof {
                assert(s@.subrange(start as int, i + 1) =~= current.push(c));
                assert(before.push(current).update(before.len() as int, current.push(c))
                    =~= before.push(current.push(c)));
            }
        }
        i = i + 1;
    }
    let ghost before = pieces.deep_view();
    let piece = s.substring_char(start, i).to_owned();
    pieces.push(piece);
    proof {
        assert(s@.take(n as int) =~= s@);
        assert(pieces.deep_view() =~= before.push(s@.subrange(start as int, i as int)));
    }
    pieces
}

} // verus!
