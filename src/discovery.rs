//! Segment discovery: the order in which segments replay.
//!
//! Segments replay in the lexicographic order of their names' UTF-8 bytes,
//! and the last of them is the active one.

use vstd::prelude::*;
use vstd::seq_lib::{group_to_multiset_ensures, to_multiset_build, to_multiset_remove};
use vstd::utf8::*;

verus! {

/// `a` comes no later than `b` in lexicographic byte order.
pub open spec fn lex_le(a: Seq<u8>, b: Seq<u8>) -> bool
    decreases a.len(),
{
    if a.len() == 0 {
        true
    } else if b.len() == 0 {
        false
    } else if a[0] != b[0] {
        a[0] < b[0]
    } else {
        lex_le(a.drop_first(), b.drop_first())
    }
}

/// The order of segment names.
pub open spec fn name_le(a: Seq<char>, b: Seq<char>) -> bool {
    lex_le(encode_utf8(a), encode_utf8(b))
}

pub open spec fn sorted_names(names: Seq<String>) -> bool {
    forall|i: int, j: int| 0 <= i < j < names.len() ==> name_le(names[i]@, names[j]@)
}

proof fn lemma_lex_total(a: Seq<u8>, b: Seq<u8>)
    ensures
        lex_le(a, b) || lex_le(b, a),
    decreases a.len(),
{
    if a.len() > 0 && b.len() > 0 && a[0] == b[0] {
        lemma_lex_total(a.drop_first(), b.drop_first());
    }
}

proof fn lemma_lex_trans(a: Seq<u8>, b: Seq<u8>, c: Seq<u8>)
    requires
        lex_le(a, b),
        lex_le(b, c),
    ensures
        lex_le(a, c),
    decreases a.len(),
{
    if a.len() > 0 && b.len() > 0 && c.len() > 0 && a[0] == b[0] && b[0] == c[0] {
        lemma_lex_trans(a.drop_first(), b.drop_first(), c.drop_first());
    }
}

/// Whether the name `a` comes no later than `b`.
pub fn names_in_order(a: &String, b: &String) -> (r: bool)
    ensures
        r == name_le(a@, b@),
{
    let x = a.as_str().as_bytes();
    let y = b.as_str().as_bytes();
    let ghost xs = encode_utf8(a@);
    let ghost ys = encode_utf8(b@);
    let mut i: usize = 0;
    proof {
        assert(xs.subrange(0, xs.len() as int) =~= xs);
        assert(ys.subrange(0, ys.len() as int) =~= ys);
    }
    while i < x.len() && i < y.len()
        invariant
            x@ == xs,
            y@ == ys,
            xs == encode_utf8(a@),
            ys == encode_utf8(b@),
            i <= xs.len(),
            i <= ys.len(),
            lex_le(xs, ys) == lex_le(
                xs.subrange(i as int, xs.len() as int),
                ys.subrange(i as int, ys.len() as int),
            ),
        decreases xs.len() - i,
    {
        if x[i] != y[i] {
            proof {
                let sa = xs.subrange(i as int, xs.len() as int);
                let sb = ys.subrange(i as int, ys.len() as int);
                assert(sa[0] == xs[i as int]);
                assert(sb[0] == ys[i as int]);
                assert(sa.len() > 0 && sb.len() > 0 && sa[0] != sb[0]);
                assert(lex_le(sa, sb) == (sa[0] < sb[0]));
            }
            let lt = x[i] < y[i];
            return lt;
        }
        proof {
            assert(xs.subrange(i as int, xs.len() as int).drop_first() =~= xs.subrange(
                i + 1,
                xs.len() as int,
            ));
            assert(ys.subrange(i as int, ys.len() as int).drop_first() =~= ys.subrange(
                i + 1,
                ys.len() as int,
            ));
        }
        i = i + 1;
    }
    i == x.len()
}

/// The segment names in replay order: sorted lexicographically by their
/// bytes, each name kept as often as it was given.
pub fn sort_names(names: Vec<String>) -> (r: Vec<String>)
    ensures
        sorted_names(r@),
        r@.to_multiset() == names@.to_multiset(),
{
    broadcast use group_to_multiset_ensures;

    let mut rest = names;
    let mut out: Vec<String> = Vec::new();
    while rest.len() > 0
        invariant
            sorted_names(out@),
            forall|i: int, j: int|
                0 <= i < out@.len() && 0 <= j < rest@.len() ==> name_le(out@[i]@, rest@[j]@),
            out@.to_multiset().add(rest@.to_multiset()) == names@.to_multiset(),
        decreases rest@.len(),
    {
        let mut m: usize = 0;
        let mut k: usize = 1;
        proof {
            lemma_lex_total(encode_utf8(rest@[0]@), encode_utf8(rest@[0]@));
        }
        while k < rest.len()
            invariant
                0 <= m < k <= rest@.len(),
                forall|j: int| 0 <= j < k ==> name_le(rest@[m as int]@, #[trigger] rest@[j]@),
            decreases rest@.len() - k,
        {
            if !names_in_order(&rest[m], &rest[k]) {
                proof {
                    let km = encode_utf8(rest@[k as int]@);
                    lemma_lex_total(encode_utf8(rest@[m as int]@), km);
                    assert forall|j: int| 0 <= j < k + 1 implies name_le(
                        rest@[k as int]@,
                        #[trigger] rest@[j]@,
                    ) by {
                        if j < k {
                            lemma_lex_trans(
                                km,
                                encode_utf8(rest@[m as int]@),
                                encode_utf8(rest@[j]@),
                            );
                        } else {
                            lemma_lex_total(km, km);
                        }
                    }
                }
                m = k;
            }
            k = k + 1;
        }
        let ghost old_rest = rest@;
        let ghost old_out = out@;
        let x = rest.remove(m);
        out.push(x);
        proof {
            assert(rest@ == old_rest.remove(m as int));
            assert forall|i: int, j: int| 0 <= i < out@.len() && 0 <= j < rest@.len() implies name_le(
                out@[i]@,
                rest@[j]@,
            ) by {
                let jj = if j < m {
                    j
                } else {
                    j + 1
                };
                assert(rest@[j] == old_rest[jj]);
                if i < old_out.len() {
                    assert(out@[i] == old_out[i]);
                } else {
                    assert(out@[i] == old_rest[m as int]);
                }
            }
            assert forall|i: int, j: int| 0 <= i < j < out@.len() implies name_le(
                out@[i]@,
                out@[j]@,
            ) by {
                if j < old_out.len() {
                    assert(out@[i] == old_out[i]);
                    assert(out@[j] == old_out[j]);
                } else {
                    assert(out@[i] == old_out[i]);
                    assert(out@[j] == old_rest[m as int]);
                }
            }
            assert(out@ == old_out.push(x));
            assert(x == old_rest[m as int]);
            to_multiset_build(old_out, x);
            to_multiset_remove(old_rest, m as int);
            assert(out@.to_multiset() =~= old_out.to_multiset().insert(x));
            assert(rest@.to_multiset() =~= old_rest.to_multiset().remove(x));
            assert(old_rest.to_multiset().count(x) > 0) by {
                assert(old_rest[m as int] == x);
                assert(old_rest.contains(x));
                old_rest.to_multiset_ensures();
            }
            assert(out@.to_multiset().add(rest@.to_multiset()) =~= old_out.to_multiset().add(
                old_rest.to_multiset(),
            ));
        }
    }
    proof {
        assert(rest@.to_multiset() =~= vstd::multiset::Multiset::empty()) by {
            assert(rest@.len() == 0);
            assert(rest@.to_multiset().len() == 0);
        }
        assert(out@.to_multiset().add(vstd::multiset::Multiset::empty()) =~= out@.to_multiset());
    }
    out
}

} // verus!
