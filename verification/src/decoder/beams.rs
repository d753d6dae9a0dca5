//! The set of beams of one timestep, each found again by its prefix.
//!
//! Beams are held in a vector sorted strictly by prefix, so that a prefix is
//! found by binary search; the order by probability is computed when the beams
//! are listed.

use vstd::prelude::*;

use crate::decoder::beam::{
    beam_add_with_blank, beam_add_without_blank, beam_lt, compare_prefixes, lemma_beam_lt_total,
    lemma_beam_lt_transitive, lemma_prefix_lt_irreflexive, lemma_prefix_lt_total,
    lemma_prefix_lt_transitive, new_beam_view, prefix_lt, Beam, BeamView, Comparison,
};
use crate::util::log_space::{is_log_op, log_op, LogSpaceF32};

verus! {

/// Prefixes strictly increase along `s`; in particular no prefix occurs twice.
pub open spec fn prefixes_sorted(s: Seq<BeamView>) -> bool {
    forall|i: int, j: int| 0 <= i < j < s.len() ==> prefix_lt(#[trigger] s[i].prefix, #[trigger] s[j].prefix)
}

/// The beam with prefix `p` in `s`, if there is one.
pub open spec fn lookup(s: Seq<BeamView>, p: Seq<char>) -> Option<BeamView>
    decreases s.len(),
{
    if s.len() == 0 {
        None
    } else if s[0].prefix == p {
        Some(s[0])
    } else {
        lookup(s.drop_first(), p)
    }
}

/// `s` with `b` in place of the beam of the same prefix, or with `b` added
/// where its prefix belongs.
pub open spec fn upsert(s: Seq<BeamView>, b: BeamView) -> Seq<BeamView>
    decreases s.len(),
{
    if s.len() == 0 {
        seq![b]
    } else if s[0].prefix == b.prefix {
        seq![b] + s.drop_first()
    } else if prefix_lt(b.prefix, s[0].prefix) {
        seq![b] + s
    } else {
        seq![s[0]] + upsert(s.drop_first(), b)
    }
}

/// The beam of prefix `p` in `s`, or a fresh one.
pub open spec fn beam_or_new(s: Seq<BeamView>, p: Seq<char>) -> BeamView {
    match lookup(s, p) {
        Some(b) => b,
        None => new_beam_view(p),
    }
}

/// `s` after adding `rhs` to the probability that prefix `p` ends in a blank.
pub open spec fn beams_add_with_blank(
    s: Seq<BeamView>,
    p: Seq<char>,
    rhs: LogSpaceF32,
    sum: spec_fn(LogSpaceF32, LogSpaceF32) -> LogSpaceF32,
) -> Seq<BeamView> {
    upsert(s, beam_add_with_blank(beam_or_new(s, p), rhs, sum))
}

/// `s` after adding `rhs` to the probability that prefix `p` does not end in a blank.
pub open spec fn beams_add_without_blank(
    s: Seq<BeamView>,
    p: Seq<char>,
    rhs: LogSpaceF32,
    sum: spec_fn(LogSpaceF32, LogSpaceF32) -> LogSpaceF32,
) -> Seq<BeamView> {
    upsert(s, beam_add_without_blank(beam_or_new(s, p), rhs, sum))
}

/// `l` with `x` placed before its first beam that orders below `x`.
pub open spec fn insert_desc(l: Seq<BeamView>, x: BeamView) -> Seq<BeamView>
    decreases l.len(),
{
    if l.len() == 0 {
        seq![x]
    } else if beam_lt(l[0], x) {
        seq![x] + l
    } else {
        seq![l[0]] + insert_desc(l.drop_first(), x)
    }
}

/// The beams of `s` in descending order (`s` inserted one by one, in order).
pub open spec fn sorted_desc(s: Seq<BeamView>) -> Seq<BeamView>
    decreases s.len(),
{
    if s.len() == 0 {
        Seq::empty()
    } else {
        insert_desc(sorted_desc(s.drop_last()), s.last())
    }
}

/// The first `k` elements of `s`, or all of them if there are fewer.
pub open spec fn take_at_most(s: Seq<BeamView>, k: nat) -> Seq<BeamView> {
    if k < s.len() {
        s.take(k as int)
    } else {
        s
    }
}

/// The `width` most probable beams of `s`, most probable first.
pub open spec fn pruned(s: Seq<BeamView>, width: nat) -> Seq<BeamView> {
    take_at_most(sorted_desc(s), width)
}

/// The beams of listing `l`, added one by one to an empty set.
pub open spec fn from_listing(l: Seq<BeamView>) -> Seq<BeamView>
    decreases l.len(),
{
    if l.len() == 0 {
        Seq::empty()
    } else {
        upsert(from_listing(l.drop_last()), l.last())
    }
}

/// `upsert` at the position that binary search finds for `b`'s prefix.
proof fn lemma_upsert_at(s: Seq<BeamView>, b: BeamView, pos: int)
    requires
        0 <= pos <= s.len(),
        forall|i: int| 0 <= i < pos ==> prefix_lt(#[trigger] s[i].prefix, b.prefix),
        pos < s.len() ==> !prefix_lt(s[pos].prefix, b.prefix),
    ensures
        upsert(s, b) == if pos < s.len() && s[pos].prefix == b.prefix {
            s.update(pos, b)
        } else {
            s.insert(pos, b)
        },
    decreases pos,
{
    if pos == 0 {
        if s.len() > 0 {
            lemma_prefix_lt_total(s[0].prefix, b.prefix);
            if s[0].prefix == b.prefix {
                assert(seq![b] + s.drop_first() =~= s.update(0, b));
            } else {
                assert(seq![b] + s =~= s.insert(0, b));
            }
        } else {
            assert(seq![b] =~= s.insert(0, b));
        }
    } else {
        assert(prefix_lt(s[0].prefix, b.prefix));
        lemma_prefix_lt_irreflexive(b.prefix);
        lemma_prefix_lt_total(s[0].prefix, b.prefix);
        let t = s.drop_first();
        assert forall|i: int| 0 <= i < pos - 1 implies prefix_lt(#[trigger] t[i].prefix, b.prefix) by {
            assert(t[i] == s[i + 1]);
        }
        lemma_upsert_at(t, b, pos - 1);
        if pos < s.len() && s[pos].prefix == b.prefix {
            assert(seq![s[0]] + t.update(pos - 1, b) =~= s.update(pos, b));
        } else {
            assert(seq![s[0]] + t.insert(pos - 1, b) =~= s.insert(pos, b));
        }
    }
}

/// `lookup` at the position that binary search finds for `p`.
proof fn lemma_lookup_at(s: Seq<BeamView>, p: Seq<char>, pos: int)
    requires
        prefixes_sorted(s),
        0 <= pos <= s.len(),
        forall|i: int| 0 <= i < pos ==> prefix_lt(#[trigger] s[i].prefix, p),
        pos < s.len() ==> !prefix_lt(s[pos].prefix, p),
    ensures
        lookup(s, p) == if pos < s.len() && s[pos].prefix == p {
            Some(s[pos])
        } else {
            None::<BeamView>
        },
    decreases s.len(),
{
    if s.len() > 0 {
        let t = s.drop_first();
        assert forall|i: int, j: int| 0 <= i < j < t.len() implies prefix_lt(
            #[trigger] t[i].prefix,
            #[trigger] t[j].prefix,
        ) by {
            assert(t[i] == s[i + 1] && t[j] == s[j + 1]);
        }
        if pos == 0 {
            lemma_prefix_lt_total(s[0].prefix, p);
            if s[0].prefix != p {
                // every later prefix is above s[0], which is above p
                assert(prefix_lt(p, s[0].prefix));
                lemma_lookup_absent(t, p, s[0].prefix);
            }
        } else {
            lemma_prefix_lt_irreflexive(p);
            assert forall|i: int| 0 <= i < pos - 1 implies prefix_lt(#[trigger] t[i].prefix, p) by {
                assert(t[i] == s[i + 1]);
            }
            lemma_lookup_at(t, p, pos - 1);
        }
    }
}

/// No beam of `s` has prefix `p` when all of them lie above `q`, which lies above `p`.
proof fn lemma_lookup_absent(s: Seq<BeamView>, p: Seq<char>, q: Seq<char>)
    requires
        prefixes_sorted(s),
        prefix_lt(p, q),
        forall|i: int| 0 <= i < s.len() ==> prefix_lt(q, #[trigger] s[i].prefix),
    ensures
        lookup(s, p) is None,
    decreases s.len(),
{
    if s.len() > 0 {
        lemma_prefix_lt_transitive(p, q, s[0].prefix);
        lemma_prefix_lt_irreflexive(p);
        let t = s.drop_first();
        assert forall|i: int, j: int| 0 <= i < j < t.len() implies prefix_lt(
            #[trigger] t[i].prefix,
            #[trigger] t[j].prefix,
        ) by {
            assert(t[i] == s[i + 1] && t[j] == s[j + 1]);
        }
        assert forall|i: int| 0 <= i < t.len() implies prefix_lt(q, #[trigger] t[i].prefix) by {
            assert(t[i] == s[i + 1]);
        }
        lemma_lookup_absent(t, p, q);
    }
}

/// `insert_desc` places `x` before the first beam below it.
proof fn lemma_insert_desc_at(l: Seq<BeamView>, x: BeamView, pos: int)
    requires
        0 <= pos <= l.len(),
        forall|i: int| 0 <= i < pos ==> !beam_lt(#[trigger] l[i], x),
        pos < l.len() ==> beam_lt(l[pos], x),
    ensures
        insert_desc(l, x) == l.insert(pos, x),
    decreases pos,
{
    if pos == 0 {
        if l.len() == 0 {
            assert(seq![x] =~= l.insert(0, x));
        } else {
            assert(seq![x] + l =~= l.insert(0, x));
        }
    } else {
        let t = l.drop_first();
        assert(!beam_lt(l[0], x));
        assert forall|i: int| 0 <= i < pos - 1 implies !beam_lt(#[trigger] t[i], x) by {
            assert(t[i] == l[i + 1]);
        }
        lemma_insert_desc_at(t, x, pos - 1);
        assert(seq![l[0]] + t.insert(pos - 1, x) =~= l.insert(pos, x));
    }
}

/// Inserting into the first `k` beams of a listing and keeping `k` gives the
/// first `k` of inserting into the whole listing.
proof fn lemma_insert_desc_take(a: Seq<BeamView>, x: BeamView, k: nat)
    ensures
        take_at_most(insert_desc(take_at_most(a, k), x), k) == take_at_most(insert_desc(a, x), k),
{
    lemma_insert_desc_len(a, x);
    if k >= a.len() {
    } else {
        lemma_insert_desc_len(a.take(k as int), x);
        // first position of a beam below x in a
        let pos = first_below(a, x, 0);
        lemma_first_below(a, x, 0);
        lemma_insert_desc_at(a, x, pos);
        let at = a.take(k as int);
        if pos < k {
            assert forall|i: int| 0 <= i < pos implies !beam_lt(#[trigger] at[i], x) by {
                assert(at[i] == a[i]);
            }
            assert(at[pos] == a[pos]);
            lemma_insert_desc_at(at, x, pos);
            assert(at.insert(pos, x).take(k as int) =~= a.insert(pos, x).take(k as int));
        } else {
            assert forall|i: int| 0 <= i < k implies !beam_lt(#[trigger] at[i], x) by {
                assert(at[i] == a[i]);
            }
            lemma_insert_desc_at(at, x, k as int);
            assert(at.insert(k as int, x).take(k as int) =~= at);
            assert(a.insert(pos, x).take(k as int) =~= at);
        }
    }
}

/// The first index from `from` on of a beam of `l` that orders below `x`, or `l.len()`.
spec fn first_below(l: Seq<BeamView>, x: BeamView, from: int) -> int
    decreases l.len() - from,
{
    if from >= l.len() {
        l.len() as int
    } else if beam_lt(l[from], x) {
        from
    } else {
        first_below(l, x, from + 1)
    }
}

proof fn lemma_first_below(l: Seq<BeamView>, x: BeamView, from: int)
    requires
        0 <= from <= l.len(),
    ensures
        from <= first_below(l, x, from) <= l.len(),
        forall|i: int| from <= i < first_below(l, x, from) ==> !beam_lt(#[trigger] l[i], x),
        first_below(l, x, from) < l.len() ==> beam_lt(l[first_below(l, x, from)], x),
    decreases l.len() - from,
{
    if from < l.len() && !beam_lt(l[from], x) {
        lemma_first_below(l, x, from + 1);
    }
}

/// The maximum beam of a listing is found by a left-to-right scan that keeps
/// the current best unless a later beam orders above it.
pub open spec fn scan_max(s: Seq<BeamView>) -> BeamView
    recommends
        s.len() > 0,
    decreases s.len(),
{
    if s.len() <= 1 {
        s[0]
    } else {
        let best = scan_max(s.drop_last());
        if beam_lt(best, s.last()) {
            s.last()
        } else {
            best
        }
    }
}

/// The first beam in descending order is the one the scan keeps.
proof fn lemma_sorted_desc_first(s: Seq<BeamView>)
    requires
        s.len() > 0,
    ensures
        sorted_desc(s).len() == s.len(),
        sorted_desc(s)[0] == scan_max(s),
    decreases s.len(),
{
    if s.len() == 1 {
        assert(s.drop_last() =~= Seq::<BeamView>::empty());
        assert(sorted_desc(s.drop_last()) == Seq::<BeamView>::empty());
        assert(insert_desc(Seq::<BeamView>::empty(), s.last()) == seq![s.last()]);
    } else {
        lemma_sorted_desc_first(s.drop_last());
        lemma_insert_desc_len(sorted_desc(s.drop_last()), s.last());
    }
}

proof fn lemma_insert_desc_len(l: Seq<BeamView>, x: BeamView)
    ensures
        insert_desc(l, x).len() == l.len() + 1,
        l.len() > 0 ==> insert_desc(l, x)[0] == if beam_lt(l[0], x) { x } else { l[0] },
    decreases l.len(),
{
    if l.len() > 0 && !beam_lt(l[0], x) {
        lemma_insert_desc_len(l.drop_first(), x);
    }
}

/// Reading after writing: after `upsert(s, b)` the prefix of `b` finds `b`,
/// every other prefix finds what it found before, and prefixes stay sorted.
pub proof fn lemma_upsert_lookup(s: Seq<BeamView>, b: BeamView, p: Seq<char>)
    requires
        prefixes_sorted(s),
    ensures
        prefixes_sorted(upsert(s, b)),
        lookup(upsert(s, b), b.prefix) == Some(b),
        p != b.prefix ==> lookup(upsert(s, b), p) == lookup(s, p),
        forall|i: int|
            0 <= i < upsert(s, b).len() ==> #[trigger] upsert(s, b)[i] == b || s.contains(
                upsert(s, b)[i],
            ),
    decreases s.len(),
{
    let u = upsert(s, b);
    if s.len() == 0 {
        assert(u.drop_first() =~= Seq::<BeamView>::empty());
    } else {
        let t = s.drop_first();
        assert forall|i: int, j: int| 0 <= i < j < t.len() implies prefix_lt(
            #[trigger] t[i].prefix,
            #[trigger] t[j].prefix,
        ) by {
            assert(t[i] == s[i + 1] && t[j] == s[j + 1]);
        }
        if s[0].prefix == b.prefix {
            assert(u.drop_first() =~= t);
            assert forall|i: int| 0 <= i < u.len() implies #[trigger] u[i] == b || s.contains(u[i]) by {
                if i > 0 {
                    assert(u[i] == s[i]);
                }
            }
            assert forall|i: int, j: int| 0 <= i < j < u.len() implies prefix_lt(
                #[trigger] u[i].prefix,
                #[trigger] u[j].prefix,
            ) by {
                assert(u[j] == s[j]);
                if i > 0 {
                    assert(u[i] == s[i]);
                } else {
                    assert(prefix_lt(s[0].prefix, s[j].prefix));
                }
            }
        } else if prefix_lt(b.prefix, s[0].prefix) {
            assert(u.drop_first() =~= s);
            lemma_prefix_lt_irreflexive(b.prefix);
            assert forall|i: int| 0 <= i < u.len() implies #[trigger] u[i] == b || s.contains(u[i]) by {
                if i > 0 {
                    assert(u[i] == s[i - 1]);
                }
            }
            assert forall|i: int, j: int| 0 <= i < j < u.len() implies prefix_lt(
                #[trigger] u[i].prefix,
                #[trigger] u[j].prefix,
            ) by {
                assert(u[j] == s[j - 1]);
                if i > 0 {
                    assert(u[i] == s[i - 1]);
                } else if j > 1 {
                    lemma_prefix_lt_transitive(b.prefix, s[0].prefix, s[j - 1].prefix);
                }
            }
            if p != b.prefix {
                assert(lookup(u, p) == lookup(u.drop_first(), p));
            }
        } else {
            lemma_upsert_lookup(t, b, p);
            let ut = upsert(t, b);
            assert(u.drop_first() =~= ut);
            lemma_prefix_lt_total(s[0].prefix, b.prefix);
            assert forall|i: int| 0 <= i < u.len() implies #[trigger] u[i] == b || s.contains(u[i]) by {
                if i > 0 {
                    assert(u[i] == ut[i - 1]);
                    if ut[i - 1] != b {
                        let k = choose|k: int| 0 <= k < t.len() && t[k] == ut[i - 1];
                        assert(s[k + 1] == t[k]);
                    }
                } else {
                    assert(s[0] == u[0]);
                }
            }
            assert forall|i: int, j: int| 0 <= i < j < u.len() implies prefix_lt(
                #[trigger] u[i].prefix,
                #[trigger] u[j].prefix,
            ) by {
                assert(u[j] == ut[j - 1]);
                if i > 0 {
                    assert(u[i] == ut[i - 1]);
                } else {
                    if ut[j - 1] != b {
                        let k = choose|k: int| 0 <= k < t.len() && t[k] == ut[j - 1];
                        assert(s[k + 1] == t[k]);
                    }
                }
            }
            if p == s[0].prefix {
            } else {
                assert(lookup(u, p) == lookup(ut, p));
            }
            assert(lookup(u, b.prefix) == lookup(ut, b.prefix));
        }
    }
}

/// Inserting `x`, whose prefix no beam of `l` has, into a strictly descending
/// listing keeps it strictly descending and adds exactly `x`.
proof fn lemma_insert_desc_sorted(l: Seq<BeamView>, x: BeamView)
    requires
        forall|i: int, j: int| 0 <= i < j < l.len() ==> beam_lt(#[trigger] l[j], #[trigger] l[i]),
        forall|i: int| 0 <= i < l.len() ==> (#[trigger] l[i]).prefix != x.prefix,
    ensures
        forall|i: int, j: int|
            0 <= i < j < insert_desc(l, x).len() ==> beam_lt(
                #[trigger] insert_desc(l, x)[j],
                #[trigger] insert_desc(l, x)[i],
            ),
        forall|y: BeamView| #[trigger] insert_desc(l, x).contains(y) <==> (l.contains(y) || y == x),
{
    let pos = first_below(l, x, 0);
    lemma_first_below(l, x, 0);
    lemma_insert_desc_at(l, x, pos);
    let r = l.insert(pos, x);
    assert forall|i: int| 0 <= i < pos implies beam_lt(x, #[trigger] l[i]) by {
        lemma_beam_lt_total(l[i], x);
    }
    assert forall|i: int, j: int| 0 <= i < j < r.len() implies beam_lt(#[trigger] r[j], #[trigger] r[i]) by {
        if j < pos {
            assert(r[i] == l[i] && r[j] == l[j]);
        } else if j == pos {
            assert(r[i] == l[i]);
        } else if i == pos {
            assert(r[j] == l[j - 1]);
            if j - 1 > pos {
                lemma_beam_lt_transitive(l[j - 1], l[pos], x);
            }
        } else if i < pos {
            assert(r[i] == l[i] && r[j] == l[j - 1]);
        } else {
            assert(r[i] == l[i - 1] && r[j] == l[j - 1]);
        }
    }
    assert forall|y: BeamView| #[trigger] r.contains(y) <==> (l.contains(y) || y == x) by {
        if r.contains(y) {
            let k = choose|k: int| 0 <= k < r.len() && r[k] == y;
            if k < pos {
                assert(l[k] == y);
            } else if k > pos {
                assert(l[k - 1] == y);
            }
        }
        if l.contains(y) {
            let k = choose|k: int| 0 <= k < l.len() && l[k] == y;
            if k < pos {
                assert(r[k] == y);
            } else {
                assert(r[k + 1] == y);
            }
        }
        if y == x {
            assert(r[pos] == x);
        }
    }
}

/// The listing in descending order holds exactly the beams of `s`, each
/// strictly below the one before it: beams are visited most probable first.
pub proof fn lemma_sorted_desc(s: Seq<BeamView>)
    requires
        prefixes_sorted(s),
    ensures
        sorted_desc(s).len() == s.len(),
        forall|y: BeamView| #[trigger] sorted_desc(s).contains(y) <==> s.contains(y),
        forall|i: int, j: int|
            0 <= i < j < s.len() ==> beam_lt(#[trigger] sorted_desc(s)[j], #[trigger] sorted_desc(s)[i]),
    decreases s.len(),
{
    if s.len() > 0 {
        let t = s.drop_last();
        assert forall|i: int, j: int| 0 <= i < j < t.len() implies prefix_lt(
            #[trigger] t[i].prefix,
            #[trigger] t[j].prefix,
        ) by {
            assert(t[i] == s[i] && t[j] == s[j]);
        }
        lemma_sorted_desc(t);
        let l = sorted_desc(t);
        assert forall|i: int| 0 <= i < l.len() implies (#[trigger] l[i]).prefix != s.last().prefix by {
            assert(l.contains(l[i]));
            let k = choose|k: int| 0 <= k < t.len() && t[k] == l[i];
            assert(prefix_lt(s[k].prefix, s[s.len() - 1].prefix));
            lemma_prefix_lt_irreflexive(s.last().prefix);
        }
        lemma_insert_desc_sorted(l, s.last());
        lemma_insert_desc_len(l, s.last());
        assert forall|y: BeamView| #[trigger] s.contains(y) <==> (t.contains(y) || y == s.last()) by {
            if s.contains(y) {
                let k = choose|k: int| 0 <= k < s.len() && s[k] == y;
                if k < s.len() - 1 {
                    assert(t[k] == y);
                }
            }
            if t.contains(y) {
                let k = choose|k: int| 0 <= k < t.len() && t[k] == y;
                assert(s[k] == y);
            }
        }
    }
}

/// Pruning keeps the most probable beams: at most `width` of them, each a beam
/// of `s`, and every beam of `s` left out orders below every beam kept.
pub proof fn lemma_pruned_keeps_most_probable(s: Seq<BeamView>, width: nat)
    requires
        prefixes_sorted(s),
    ensures
        pruned(s, width).len() == if width < s.len() { width } else { s.len() },
        forall|i: int| 0 <= i < pruned(s, width).len() ==> s.contains(#[trigger] pruned(s, width)[i]),
        forall|x: BeamView, i: int|
            #![trigger s.contains(x), pruned(s, width)[i]]
            s.contains(x) && !pruned(s, width).contains(x) && 0 <= i < pruned(s, width).len()
                ==> beam_lt(x, pruned(s, width)[i]),
{
    lemma_sorted_desc(s);
    let l = sorted_desc(s);
    let k = pruned(s, width);
    assert forall|i: int| 0 <= i < k.len() implies s.contains(#[trigger] k[i]) by {
        assert(k[i] == l[i]);
        assert(l.contains(l[i]));
    }
    assert forall|x: BeamView, i: int|
        #![trigger s.contains(x), k[i]]
        s.contains(x) && !k.contains(x) && 0 <= i < k.len() implies beam_lt(x, k[i]) by {
        assert(l.contains(x));
        let j = choose|j: int| 0 <= j < l.len() && l[j] == x;
        if j < k.len() {
            assert(k[j] == x);
        }
        assert(k[i] == l[i]);
    }
}

/// The beam that decoding reports is the most probable one: a beam of `s`
/// above every other beam of `s`.
pub proof fn lemma_best_beam_is_most_probable(s: Seq<BeamView>)
    requires
        prefixes_sorted(s),
        s.len() > 0,
    ensures
        s.contains(sorted_desc(s)[0]),
        forall|i: int| 0 <= i < s.len() && s[i] != sorted_desc(s)[0] ==> beam_lt(#[trigger] s[i], sorted_desc(s)[0]),
{
    lemma_sorted_desc(s);
    let l = sorted_desc(s);
    assert(l.contains(l[0]));
    assert forall|i: int| 0 <= i < s.len() && s[i] != l[0] implies beam_lt(#[trigger] s[i], l[0]) by {
        assert(s.contains(s[i]));
        assert(l.contains(s[i]));
        let j = choose|j: int| 0 <= j < l.len() && l[j] == s[i];
        assert(j != 0);
        assert(beam_lt(l[j], l[0]));
    }
}

/// The beams of one timestep.
pub struct Beams {
    beams: Vec<Beam>,
}

impl View for Beams {
    type V = Seq<BeamView>;

    closed spec fn view(&self) -> Seq<BeamView> {
        self.beams@.map_values(|b: Beam| b@)
    }
}

/// The views of a vector of beams.
pub open spec fn beam_views(v: Seq<Beam>) -> Seq<BeamView> {
    v.map_values(|b: Beam| b@)
}

impl Default for Beams {
    /// No beams.
    fn default() -> (r: Self)
        ensures
            r.wf(),
            r@ == Seq::<BeamView>::empty(),
    {
        Beams::new()
    }
}

impl Beams {
    /// The beams are sorted strictly by prefix.
    pub open spec fn wf(&self) -> bool {
        prefixes_sorted(self@)
    }

    /// No beams.
    pub fn new() -> (r: Self)
        ensures
            r.wf(),
            r@ == Seq::<BeamView>::empty(),
    {
        let r = Beams { beams: Vec::new() };
        assert(r@ =~= Seq::<BeamView>::empty());
        r
    }

    /// Binary search: the first position whose prefix is not below `prefix`,
    /// and whether the prefix there is `prefix`.
    fn find(&self, prefix: &Vec<char>) -> (r: (bool, usize))
        requires
            self.wf(),
        ensures
            r.1 <= self@.len(),
            forall|i: int| 0 <= i < r.1 ==> prefix_lt(#[trigger] self@[i].prefix, prefix@),
            r.1 < self@.len() ==> !prefix_lt(self@[r.1 as int].prefix, prefix@),
            r.0 == (r.1 < self@.len() && self@[r.1 as int].prefix == prefix@),
    {
        let ghost s = self@;
        let mut lo: usize = 0;
        let mut hi: usize = self.beams.len();
        while lo < hi
            invariant
                s == self@,
                prefixes_sorted(s),
                hi <= s.len(),
                lo <= hi,
                forall|i: int| 0 <= i < lo ==> prefix_lt(#[trigger] s[i].prefix, prefix@),
                forall|i: int| hi <= i < s.len() ==> !prefix_lt(#[trigger] s[i].prefix, prefix@),
            decreases hi - lo,
        {
            let mid = lo + (hi - lo) / 2;
            assert(s[mid as int] == self.beams@[mid as int]@);
            let c = compare_prefixes(self.beams[mid].prefix(), prefix);
            if c == Comparison::Below {
                assert forall|i: int| 0 <= i < mid + 1 implies prefix_lt(#[trigger] s[i].prefix, prefix@) by {
                    if i < mid {
                        lemma_prefix_lt_transitive(s[i].prefix, s[mid as int].prefix, prefix@);
                    }
                }
                lo = mid + 1;
            } else {
                assert forall|i: int| mid <= i < s.len() implies !prefix_lt(#[trigger] s[i].prefix, prefix@) by {
                    if i > mid && prefix_lt(s[i].prefix, prefix@) {
                        lemma_prefix_lt_transitive(s[mid as int].prefix, s[i].prefix, prefix@);
                    }
                }
                hi = mid;
            }
        }
        if lo < self.beams.len() {
            assert(s[lo as int] == self.beams@[lo as int]@);
            let c = compare_prefixes(self.beams[lo].prefix(), prefix);
            (c == Comparison::Same, lo)
        } else {
            (false, lo)
        }
    }

    /// Puts `beam` at `pos`, found by `find` for its prefix.
    fn place(&mut self, beam: Beam, found: bool, pos: usize)
        requires
            old(self).wf(),
            pos <= old(self)@.len(),
            forall|i: int| 0 <= i < pos ==> prefix_lt(#[trigger] old(self)@[i].prefix, beam@.prefix),
            pos < old(self)@.len() ==> !prefix_lt(old(self)@[pos as int].prefix, beam@.prefix),
            found == (pos < old(self)@.len() && old(self)@[pos as int].prefix == beam@.prefix),
        ensures
            final(self).wf(),
            final(self)@ == upsert(old(self)@, beam@),
            final(self)@.len() >= 1,
            final(self)@.len() == old(self)@.len() + if found { 0int } else { 1int },
    {
        let ghost s = self@;
        let ghost b = beam@;
        proof {
            lemma_upsert_at(s, b, pos as int);
        }
        if found {
            self.beams.set(pos, beam);
            assert(self@ =~= s.update(pos as int, b));
        } else {
            self.beams.insert(pos, beam);
            assert(self@ =~= s.insert(pos as int, b));
            assert forall|i: int, j: int| 0 <= i < j < self@.len() implies prefix_lt(
                #[trigger] self@[i].prefix,
                #[trigger] self@[j].prefix,
            ) by {
                if pos < s.len() {
                    lemma_prefix_lt_total(s[pos as int].prefix, b.prefix);
                }
                if i < pos && j == pos {
                } else if i == pos && j > pos {
                    if j > pos + 1 {
                        lemma_prefix_lt_transitive(b.prefix, s[pos as int].prefix, s[j - 1].prefix);
                    }
                } else if i < pos && j > pos {
                    assert(prefix_lt(s[i].prefix, s[j - 1].prefix));
                } else if i > pos {
                    assert(prefix_lt(s[i - 1].prefix, s[j - 1].prefix));
                }
            }
        }
    }

    /// Adds `beam`, replacing any beam of the same prefix.
    pub fn add(&mut self, beam: Beam)
        requires
            old(self).wf(),
        ensures
            final(self).wf(),
            final(self)@ == upsert(old(self)@, beam@),
            final(self)@.len() >= 1,
            final(self)@.len() >= old(self)@.len(),
            final(self)@.len() <= old(self)@.len() + 1,
    {
        let (found, pos) = self.find(beam.prefix());
        self.place(beam, found, pos);
    }

    /// The beam of `prefix`, or a fresh one, and where it belongs.
    fn take_or_new(&self, prefix: &Vec<char>) -> (r: (Beam, bool, usize))
        requires
            self.wf(),
        ensures
            r.0@ == beam_or_new(self@, prefix@),
            r.0@.prefix == prefix@,
            r.2 <= self@.len(),
            forall|i: int| 0 <= i < r.2 ==> prefix_lt(#[trigger] self@[i].prefix, prefix@),
            r.2 < self@.len() ==> !prefix_lt(self@[r.2 as int].prefix, prefix@),
            r.1 == (r.2 < self@.len() && self@[r.2 as int].prefix == prefix@),
            r.1 == lookup(self@, prefix@) is Some,
    {
        let (found, pos) = self.find(prefix);
        proof {
            lemma_lookup_at(self@, prefix@, pos as int);
        }
        if found {
            assert(self@[pos as int] == self.beams@[pos as int]@);
            (self.beams[pos].duplicate(), found, pos)
        } else {
            (Beam::new(prefix.clone()), found, pos)
        }
    }

    /// Replaces the beam of `prefix`, or a fresh beam for `prefix` if there
    /// is none, by what `updater` makes of it. `updater`, called once, keeps
    /// the prefix; the beams of all other prefixes stay as they were, and the
    /// number of beams grows by one exactly when `prefix` had none.
    pub fn update<F: FnOnce(Beam) -> Beam>(&mut self, prefix: &Vec<char>, updater: F)
        requires
            old(self).wf(),
            forall|b: Beam| b@.prefix == prefix@ ==> #[trigger] updater.requires((b,)),
            forall|b: Beam, r: Beam| #[trigger] updater.ensures((b,), r) ==> r@.prefix == b@.prefix,
        ensures
            final(self).wf(),
            exists|b: Beam, r: Beam|
                {
                    &&& b@ == beam_or_new(old(self)@, prefix@)
                    &&& #[trigger] updater.ensures((b,), r)
                    &&& lookup(final(self)@, prefix@) == Some(r@)
                    &&& final(self)@ == upsert(old(self)@, r@)
                },
            forall|p: Seq<char>|
                p != prefix@ ==> #[trigger] lookup(final(self)@, p) == lookup(old(self)@, p),
            final(self)@.len() == old(self)@.len() + if lookup(old(self)@, prefix@) is Some {
                0int
            } else {
                1int
            },
    {
        let ghost s = self@;
        let (beam, found, pos) = self.take_or_new(prefix);
        let ghost given = beam;
        let updated = updater(beam);
        assert(updater.ensures((given,), updated));
        self.place(updated, found, pos);
        proof {
            lemma_upsert_lookup(s, updated@, prefix@);
            assert forall|p: Seq<char>| p != prefix@ implies #[trigger] lookup(self@, p) == lookup(s, p) by {
                lemma_upsert_lookup(s, updated@, p);
            }
        }
    }

    /// Adds `rhs` to the probability that `prefix` ends in a blank, starting
    /// from a fresh beam if there is none for `prefix`.
    pub fn add_to_probability_with_blank<S: Fn(LogSpaceF32, LogSpaceF32) -> LogSpaceF32>(
        &mut self,
        prefix: &Vec<char>,
        rhs: LogSpaceF32,
        log_sum: &S,
    )
        requires
            old(self).wf(),
            is_log_op(*log_sum),
        ensures
            final(self).wf(),
            final(self)@ == beams_add_with_blank(old(self)@, prefix@, rhs, log_op(*log_sum)),
            final(self)@.len() >= 1,
            final(self)@.len() >= old(self)@.len(),
    {
        let add = |beam: Beam| -> (r: Beam)
            requires
                is_log_op(*log_sum),
            ensures
                r@ == beam_add_with_blank(beam@, rhs, log_op(*log_sum)),
            {
                let mut beam = beam;
                beam.add_to_probability_with_blank(rhs, log_sum);
                beam
            };
        self.update(prefix, add);
    }

    /// Adds `rhs` to the probability that `prefix` does not end in a blank,
    /// starting from a fresh beam if there is none for `prefix`.
    pub fn add_to_probability_without_blank<S: Fn(LogSpaceF32, LogSpaceF32) -> LogSpaceF32>(
        &mut self,
        prefix: &Vec<char>,
        rhs: LogSpaceF32,
        log_sum: &S,
    )
        requires
            old(self).wf(),
            is_log_op(*log_sum),
        ensures
            final(self).wf(),
            final(self)@ == beams_add_without_blank(old(self)@, prefix@, rhs, log_op(*log_sum)),
            final(self)@.len() >= 1,
            final(self)@.len() >= old(self)@.len(),
    {
        let add = |beam: Beam| -> (r: Beam)
            requires
                is_log_op(*log_sum),
            ensures
                r@ == beam_add_without_blank(beam@, rhs, log_op(*log_sum)),
            {
                let mut beam = beam;
                beam.add_to_probability_without_blank(rhs, log_sum);
                beam
            };
        self.update(prefix, add);
    }

    /// Removes all beams.
    pub fn clear(&mut self)
        ensures
            final(self).wf(),
            final(self)@ == Seq::<BeamView>::empty(),
    {
        self.beams.clear();
        assert(self@ =~= Seq::<BeamView>::empty());
    }

    /// The beams, most probable first.
    pub fn iter(&self) -> (r: Vec<Beam>)
        ensures
            beam_views(r@) == sorted_desc(self@),
            r@.len() == self@.len(),
    {
        let ghost s = self@;
        let mut out: Vec<Beam> = Vec::new();
        let mut i: usize = 0;
        while i < self.beams.len()
            invariant
                s == self@,
                i <= s.len(),
                out@.len() == i,
                beam_views(out@) == sorted_desc(s.take(i as int)),
            decreases s.len() - i,
        {
            assert(s.take(i + 1).drop_last() =~= s.take(i as int));
            assert(s[i as int] == self.beams@[i as int]@);
            insert_desc_vec(&mut out, self.beams[i].duplicate());
            i = i + 1;
        }
        assert(s.take(s.len() as int) =~= s);
        out
    }

    /// The most probable beam, if any.
    pub fn max(&self) -> (r: Option<&Beam>)
        ensures
            r is None <==> self@.len() == 0,
            r matches Some(b) ==> b@ == sorted_desc(self@)[0],
    {
        let ghost s = self@;
        if self.beams.len() == 0 {
            return None;
        }
        let mut best: usize = 0;
        let mut i: usize = 1;
        assert(s.take(1) =~= seq![s[0]]);
        assert(s[0] == self.beams@[0]@);
        while i < self.beams.len()
            invariant
                s == self@,
                1 <= i <= s.len(),
                best < i,
                self.beams@[best as int]@ == scan_max(s.take(i as int)),
            decreases s.len() - i,
        {
            assert(s.take(i + 1).drop_last() =~= s.take(i as int));
            assert(s[i as int] == self.beams@[i as int]@);
            if self.beams[best].is_below(&self.beams[i]) {
                best = i;
            }
            i = i + 1;
        }
        assert(s.take(s.len() as int) =~= s);
        proof {
            lemma_sorted_desc_first(s);
        }
        Some(&self.beams[best])
    }

    /// The `width` most probable beams, most probable first; leaves `self` empty.
    fn take_into_pruned(&mut self, width: usize) -> (r: Vec<Beam>)
        ensures
            final(self).wf(),
            final(self)@ == Seq::<BeamView>::empty(),
            beam_views(r@) == pruned(old(self)@, width as nat),
            r@.len() == if width < old(self)@.len() { width as nat } else { old(self)@.len() },
    {
        let ghost s = self@;
        let mut out: Vec<Beam> = Vec::new();
        let mut i: usize = 0;
        while i < self.beams.len()
            invariant
                s == self@,
                i <= s.len(),
                out@.len() <= width,
                out@.len() == if width < i { width as nat } else { i as nat },
                beam_views(out@) == take_at_most(sorted_desc(s.take(i as int)), width as nat),
            decreases s.len() - i,
        {
            assert(s.take(i + 1).drop_last() =~= s.take(i as int));
            assert(s[i as int] == self.beams@[i as int]@);
            proof {
                lemma_insert_desc_take(sorted_desc(s.take(i as int)), s[i as int], width as nat);
            }
            let beam = self.beams[i].duplicate();
            insert_desc_bounded(&mut out, beam, width);
            i = i + 1;
        }
        assert(s.take(s.len() as int) =~= s);
        self.clear();
        out
    }

    /// Replaces the beams of `self` by the `width` most probable beams of
    /// `other`, and leaves `other` empty.
    pub fn extend_pruned(&mut self, other: &mut Beams, width: usize)
        ensures
            final(self).wf(),
            final(self)@ == from_listing(pruned(old(other)@, width as nat)),
            old(other)@.len() > 0 && width > 0 ==> final(self)@.len() > 0,
            final(self)@.len() <= width,
            final(other).wf(),
            final(other)@ == Seq::<BeamView>::empty(),
    {
        let kept = other.take_into_pruned(width);
        self.clear();
        let mut i: usize = 0;
        while i < kept.len()
            invariant
                self.wf(),
                i <= kept@.len(),
                self@ == from_listing(beam_views(kept@).take(i as int)),
                i > 0 ==> self@.len() > 0,
                self@.len() <= i,
                kept@.len() <= width,
            decreases kept@.len() - i,
        {
            assert(beam_views(kept@).take(i + 1).drop_last() =~= beam_views(kept@).take(i as int));
            self.add(kept[i].duplicate());
            i = i + 1;
        }
        assert(beam_views(kept@).take(kept@.len() as int) =~= beam_views(kept@));
    }
}

/// Inserts `x` into the descending listing `out`.
fn insert_desc_vec(out: &mut Vec<Beam>, x: Beam)
    ensures
        beam_views(final(out)@) == insert_desc(beam_views(old(out)@), x@),
        final(out)@.len() == old(out)@.len() + 1,
{
    let ghost l = beam_views(out@);
    let mut pos: usize = 0;
    while pos < out.len() && !out[pos].is_below(&x)
        invariant
            l == beam_views(out@),
            pos <= out@.len(),
            forall|i: int| 0 <= i < pos ==> !beam_lt(#[trigger] l[i], x@),
        decreases out@.len() - pos,
    {
        pos = pos + 1;
    }
    proof {
        lemma_insert_desc_at(l, x@, pos as int);
    }
    out.insert(pos, x);
    assert(beam_views(out@) =~= l.insert(pos as int, x@));
}

/// Inserts `x` into the descending listing `out` and keeps at most `width` beams.
fn insert_desc_bounded(out: &mut Vec<Beam>, x: Beam, width: usize)
    requires
        old(out)@.len() <= width,
    ensures
        final(out)@.len() <= width,
        final(out)@.len() == if old(out)@.len() < width { old(out)@.len() + 1 } else { width as nat },
        beam_views(final(out)@) == take_at_most(insert_desc(beam_views(old(out)@), x@), width as nat),
{
    let ghost l = beam_views(out@);
    let mut pos: usize = 0;
    while pos < out.len() && !out[pos].is_below(&x)
        invariant
            l == beam_views(out@),
            pos <= out@.len(),
            forall|i: int| 0 <= i < pos ==> !beam_lt(#[trigger] l[i], x@),
        decreases out@.len() - pos,
    {
        pos = pos + 1;
    }
    proof {
        lemma_insert_desc_at(l, x@, pos as int);
    }
    if pos < width {
        out.insert(pos, x);
        if out.len() > width {
            out.pop();
            assert(beam_views(out@) =~= l.insert(pos as int, x@).take(width as int));
        } else {
            assert(beam_views(out@) =~= l.insert(pos as int, x@));
        }
    } else {
        assert(l =~= l.insert(pos as int, x@).take(width as int));
    }
}

} // verus!
