//! Word error counting: how many word-level edits turn reference
//! transcriptions into the transcriptions under evaluation.

use vstd::prelude::*;

use crate::text::{ascii_lowercase, char_is_whitespace, char_to_ascii_lowercase, chars_of, is_whitespace};

verus! {

/// The maximal runs of non-whitespace characters of `s`, in order (what
/// `str::split_whitespace` yields): a whitespace character ends the current
/// run, a non-whitespace character extends it or starts a new one.
pub open spec fn split_whitespace(s: Seq<char>) -> Seq<Seq<char>>
    decreases s.len(),
{
    if s.len() == 0 {
        Seq::empty()
    } else if is_whitespace(s.last()) {
        split_whitespace(s.drop_last())
    } else if s.len() >= 2 && !is_whitespace(s[s.len() - 2]) {
        let prev = split_whitespace(s.drop_last());
        prev.update(prev.len() - 1, prev.last().push(s.last()))
    } else {
        split_whitespace(s.drop_last()).push(seq![s.last()])
    }
}

/// `w` with `A`-`Z` mapped to `a`-`z`.
pub open spec fn lowercase(w: Seq<char>) -> Seq<char> {
    w.map_values(|c: char| ascii_lowercase(c))
}

/// The words of a sentence, in ASCII lower case.
pub open spec fn spec_words(s: Seq<char>) -> Seq<Seq<char>> {
    split_whitespace(s).map_values(|w: Seq<char>| lowercase(w))
}

/// The string views of a sequence of strings.
pub open spec fn string_views(v: Seq<String>) -> Seq<Seq<char>> {
    v.map_values(|w: String| w@)
}

/// Splitting a non-empty prefix: it ends in a run exactly when its last
/// character is not whitespace.
proof fn lemma_split_last(s: Seq<char>)
    ensures
        (s.len() > 0 && !is_whitespace(s.last())) ==> split_whitespace(s).len() > 0,
    decreases s.len(),
{
    if s.len() > 0 {
        lemma_split_last(s.drop_last());
    }
}

/// The words of `sentence`, split at whitespace and in ASCII lower case.
pub fn words(sentence: &str) -> (r: Vec<String>)
    ensures
        string_views(r@) == spec_words(sentence@),
{
    let chars = chars_of(sentence);
    let ghost s = chars@;
    let mut done: Vec<String> = Vec::new();
    let mut cur = String::new();
    let mut i: usize = 0;
    while i < chars.len()
        invariant
            s == chars@,
            i <= s.len(),
            cur@.len() > 0 <==> (i > 0 && !is_whitespace(s[i - 1])),
            (if cur@.len() > 0 {
                string_views(done@).push(cur@)
            } else {
                string_views(done@)
            }) == spec_words(s.take(i as int)),
        decreases s.len() - i,
    {
        let c = chars[i];
        let ghost t = s.take(i + 1);
        let ghost prev = split_whitespace(s.take(i as int));
        assert(t.drop_last() =~= s.take(i as int));
        assert(t.last() == c);
        if char_is_whitespace(c) {
            assert(split_whitespace(t) == prev);
            assert(spec_words(t) == spec_words(s.take(i as int)));
            if !cur.as_str().is_empty() {
                let finished = cur;
                cur = String::new();
                done.push(finished);
                assert(string_views(done@) =~= string_views(done@.drop_last()).push(finished@));
            }
        } else {
            let lc = char_to_ascii_lowercase(c);
            if !cur.as_str().is_empty() {
                proof {
                    lemma_split_last(s.take(i as int));
                    assert(t[t.len() - 2] == s[i - 1]);
                }
                let ghost old_cur = cur@;
                assert(spec_words(s.take(i as int)).len() == prev.len());
                assert(string_views(done@).push(old_cur).len() == prev.len());
                assert(lowercase(prev.last()) == spec_words(s.take(i as int))[prev.len() - 1]);
                cur.push(lc);
                assert(split_whitespace(t) == prev.update(prev.len() - 1, prev.last().push(c)));
                assert(lowercase(prev.last().push(c)) =~= lowercase(prev.last()).push(lc));
                assert(spec_words(t) =~= spec_words(s.take(i as int)).update(
                    prev.len() - 1,
                    lowercase(prev.last()).push(lc),
                ));
                assert(string_views(done@).push(cur@) =~= string_views(done@).push(old_cur).update(
                    prev.len() - 1,
                    old_cur.push(lc),
                ));
                assert(string_views(done@).push(cur@) == spec_words(t));
            } else {
                cur.push(lc);
                assert(lowercase(seq![c]) =~= seq![lc]);
                if i > 0 {
                    assert(t[t.len() - 2] == s[i - 1]);
                }
                assert(spec_words(t) =~= spec_words(s.take(i as int)).push(seq![lc]));
                assert(cur@ == seq![lc]);
                assert(string_views(done@).push(cur@) == spec_words(t));
            }
        }
        i = i + 1;
    }
    assert(s.take(s.len() as int) =~= s);
    if !cur.as_str().is_empty() {
        done.push(cur);
    }
    assert(string_views(done@) =~= spec_words(sentence@));
    done
}

/// The least of three numbers.
pub open spec fn min3(a: nat, b: nat, c: nat) -> nat {
    if a <= b && a <= c {
        a
    } else if b <= c {
        b
    } else {
        c
    }
}

/// The Levenshtein distance between two word sequences: the least number of
/// word insertions, deletions and substitutions that turn `a` into `b`.
pub open spec fn edit_distance(a: Seq<Seq<char>>, b: Seq<Seq<char>>) -> nat
    decreases a.len() + b.len(),
{
    if a.len() == 0 {
        b.len()
    } else if b.len() == 0 {
        a.len()
    } else if a.last() == b.last() {
        edit_distance(a.drop_last(), b.drop_last())
    } else {
        1 + min3(
            edit_distance(a.drop_last(), b),
            edit_distance(a, b.drop_last()),
            edit_distance(a.drop_last(), b.drop_last()),
        )
    }
}

/// The distance is at most the length of the longer sequence.
pub proof fn lemma_edit_distance_bound(a: Seq<Seq<char>>, b: Seq<Seq<char>>)
    ensures
        edit_distance(a, b) <= if a.len() >= b.len() { a.len() } else { b.len() },
    decreases a.len() + b.len(),
{
    if a.len() > 0 && b.len() > 0 {
        lemma_edit_distance_bound(a.drop_last(), b.drop_last());
        if a.last() != b.last() {
            lemma_edit_distance_bound(a.drop_last(), b);
            lemma_edit_distance_bound(a, b.drop_last());
        }
    }
}

/// Identical word sequences are at distance zero.
pub proof fn lemma_edit_distance_identical(a: Seq<Seq<char>>)
    ensures
        edit_distance(a, a) == 0,
    decreases a.len(),
{
    if a.len() > 0 {
        lemma_edit_distance_identical(a.drop_last());
    }
}

/// The distance from `a` to `b` is the distance from `b` to `a`.
pub proof fn lemma_edit_distance_symmetric(a: Seq<Seq<char>>, b: Seq<Seq<char>>)
    ensures
        edit_distance(a, b) == edit_distance(b, a),
    decreases a.len() + b.len(),
{
    if a.len() > 0 && b.len() > 0 {
        lemma_edit_distance_symmetric(a.drop_last(), b.drop_last());
        if a.last() != b.last() {
            lemma_edit_distance_symmetric(a.drop_last(), b);
            lemma_edit_distance_symmetric(a, b.drop_last());
        }
    }
}

/// ASCII case does not change which characters are whitespace.
proof fn lemma_case_keeps_whitespace(a: char, b: char)
    requires
        ascii_lowercase(a) == ascii_lowercase(b),
    ensures
        is_whitespace(a) == is_whitespace(b),
{
}

/// Sentences that differ only in ASCII case have the same words.
pub proof fn lemma_words_case_insensitive(s: Seq<char>, t: Seq<char>)
    requires
        s.len() == t.len(),
        forall|i: int| 0 <= i < s.len() ==> ascii_lowercase(#[trigger] s[i]) == ascii_lowercase(t[i]),
    ensures
        spec_words(s) == spec_words(t),
    decreases s.len(),
{
    if s.len() > 0 {
        let (s1, t1) = (s.drop_last(), t.drop_last());
        assert forall|i: int| 0 <= i < s1.len() implies ascii_lowercase(#[trigger] s1[i]) == ascii_lowercase(
            t1[i],
        ) by {
            assert(s1[i] == s[i] && t1[i] == t[i]);
        }
        lemma_words_case_insensitive(s1, t1);
        let n = s.len() - 1;
        assert(ascii_lowercase(s[n]) == ascii_lowercase(t[n]));
        lemma_case_keeps_whitespace(s.last(), t.last());
        if s.len() >= 2 {
            assert(ascii_lowercase(s[n - 1]) == ascii_lowercase(t[n - 1]));
            lemma_case_keeps_whitespace(s[n - 1], t[n - 1]);
        }
        let ps = split_whitespace(s1);
        let pt = split_whitespace(t1);
        let ws = spec_words(s1);
        assert(ps.len() == ws.len() && pt.len() == ws.len());
        if !is_whitespace(s.last()) {
            if s.len() >= 2 && !is_whitespace(s[n - 1]) {
                lemma_split_last(s1);
                let k = ps.len() - 1;
                assert(lowercase(ps[k]) == ws[k]);
                assert(lowercase(pt[k]) == ws[k]);
                assert(lowercase(ps.last().push(s.last())) =~= lowercase(ps.last()).push(ascii_lowercase(s.last())));
                assert(lowercase(pt.last().push(t.last())) =~= lowercase(pt.last()).push(ascii_lowercase(t.last())));
                assert(spec_words(s) =~= ws.update(k, ws[k].push(ascii_lowercase(s.last()))));
                assert(spec_words(t) =~= ws.update(k, ws[k].push(ascii_lowercase(t.last()))));
            } else {
                assert(lowercase(seq![s.last()]) =~= seq![ascii_lowercase(s.last())]);
                assert(lowercase(seq![t.last()]) =~= seq![ascii_lowercase(t.last())]);
                assert(spec_words(s) =~= ws.push(seq![ascii_lowercase(s.last())]));
                assert(spec_words(t) =~= ws.push(seq![ascii_lowercase(t.last())]));
            }
        }
    }
}

/// The word-level edit distance between `words_a` and `words_b`, computed one
/// row of the distance table at a time.
pub fn edit_dist(words_a: &[String], words_b: &[String]) -> (r: usize)
    ensures
        r == edit_distance(string_views(words_a@), string_views(words_b@)),
{
    let ghost a = string_views(words_a@);
    let ghost b = string_views(words_b@);
    let m = words_b.len();
    let mut distances: Vec<usize> = Vec::new();
    distances.push(0);
    let mut j: usize = 0;
    while j < m
        invariant
            j <= m,
            m == b.len(),
            distances@.len() == j + 1,
            forall|k: int| 0 <= k <= j ==> distances@[k] == k,
        decreases m - j,
    {
        distances.push(j + 1);
        j = j + 1;
    }
    assert forall|k: int| 0 <= k <= m implies #[trigger] distances@[k] == edit_distance(a.take(0), b.take(k)) by {
        assert(a.take(0).len() == 0);
        assert(b.take(k).len() == k);
    }
    let mut i: usize = 0;
    while i < words_a.len()
        invariant
            a == string_views(words_a@),
            b == string_views(words_b@),
            m == b.len(),
            i <= a.len(),
            distances@.len() == m + 1,
            forall|k: int| 0 <= k <= m ==> #[trigger] distances@[k] == edit_distance(a.take(i as int), b.take(k)),
        decreases a.len() - i,
    {
        let ghost ai = a.take(i as int);
        let ghost ai1 = a.take(i + 1);
        assert(ai1.drop_last() =~= ai);
        assert(ai1.last() == a[i as int]);
        let mut substitution_cost = distances[0];
        assert(b.take(0).len() == 0);
        distances.set(0, i + 1);
        let mut j: usize = 0;
        while j < m
            invariant
                a == string_views(words_a@),
                b == string_views(words_b@),
                m == b.len(),
                i < a.len(),
                j <= m,
                ai == a.take(i as int),
                ai1 == a.take(i + 1),
                ai1.drop_last() == ai,
                ai1.last() == a[i as int],
                distances@.len() == m + 1,
                substitution_cost == edit_distance(ai, b.take(j as int)),
                forall|k: int| 0 <= k <= j ==> #[trigger] distances@[k] == edit_distance(ai1, b.take(k)),
                forall|k: int| j < k <= m ==> #[trigger] distances@[k] == edit_distance(ai, b.take(k)),
            decreases m - j,
        {
            let ghost bj1 = b.take(j + 1);
            assert(bj1.drop_last() =~= b.take(j as int));
            assert(bj1.last() == b[j as int]);
            let deletion_cost = distances[j + 1];
            let insertion_cost = distances[j];
            assert(words_a@[i as int]@ == a[i as int]);
            assert(words_b@[j as int]@ == b[j as int]);
            let new_cost = if words_a[i] == words_b[j] {
                substitution_cost
            } else {
                proof {
                    lemma_edit_distance_bound(ai, b.take(j as int));
                }
                let least = if deletion_cost <= insertion_cost && deletion_cost <= substitution_cost {
                    deletion_cost
                } else if insertion_cost <= substitution_cost {
                    insertion_cost
                } else {
                    substitution_cost
                };
                1 + least
            };
            assert(new_cost == edit_distance(ai1, bj1));
            distances.set(j + 1, new_cost);
            substitution_cost = deletion_cost;
            j = j + 1;
        }
        i = i + 1;
    }
    assert(a.take(a.len() as int) =~= a);
    assert(b.take(m as int) =~= b);
    distances[m]
}

/// The total number of reference words over `pairs`.
pub open spec fn total_words(pairs: Seq<(Seq<char>, Seq<char>)>) -> nat
    decreases pairs.len(),
{
    if pairs.len() == 0 {
        0
    } else {
        total_words(pairs.drop_last()) + spec_words(pairs.last().0).len()
    }
}

/// The total word-level edit distance over `pairs` of (reference, transcription).
pub open spec fn total_errors(pairs: Seq<(Seq<char>, Seq<char>)>) -> nat
    decreases pairs.len(),
{
    if pairs.len() == 0 {
        0
    } else {
        total_errors(pairs.drop_last()) + edit_distance(
            spec_words(pairs.last().0),
            spec_words(pairs.last().1),
        )
    }
}

/// The string views of (reference, transcription) pairs.
pub open spec fn pair_views(pairs: Seq<(String, String)>) -> Seq<(Seq<char>, Seq<char>)> {
    pairs.map_values(|p: (String, String)| (p.0@, p.1@))
}

/// The word error counts of (reference, transcription) pairs: the total
/// number of word edits, and the total number of reference words. The word
/// error rate is their quotient, or zero when there are no reference words.
pub fn word_error_counts(pairs: &[(String, String)]) -> (r: (u128, u128))
    ensures
        r.0 == total_errors(pair_views(pairs@)),
        r.1 == total_words(pair_views(pairs@)),
{
    let ghost ps = pair_views(pairs@);
    let mut total_errors_acc: u128 = 0;
    let mut total_words_acc: u128 = 0;
    let mut i: usize = 0;
    while i < pairs.len()
        invariant
            ps == pair_views(pairs@),
            i <= pairs@.len(),
            total_errors_acc == total_errors(ps.take(i as int)),
            total_words_acc == total_words(ps.take(i as int)),
            total_errors_acc <= i * 0xffff_ffff_ffff_ffffu128,
            total_words_acc <= i * 0xffff_ffff_ffff_ffffu128,
        decreases pairs@.len() - i,
    {
        assert(ps.take(i + 1).drop_last() =~= ps.take(i as int));
        assert(ps.take(i + 1).last() == ps[i as int]);
        let pair = &pairs[i];
        let reference_words = words(pair.0.as_str());
        let transcribed_words = words(pair.1.as_str());
        let errors = edit_dist(reference_words.as_slice(), transcribed_words.as_slice());
        assert(string_views(reference_words@).len() == reference_words@.len());
        total_words_acc = total_words_acc + reference_words.len() as u128;
        total_errors_acc = total_errors_acc + errors as u128;
        i = i + 1;
    }
    assert(ps.take(pairs@.len() as int) =~= ps);
    (total_errors_acc, total_words_acc)
}

/// Transcriptions identical to their references count no errors.
pub proof fn lemma_identical_transcriptions_have_no_errors(pairs: Seq<(Seq<char>, Seq<char>)>)
    requires
        forall|i: int| 0 <= i < pairs.len() ==> (#[trigger] pairs[i]).0 == pairs[i].1,
    ensures
        total_errors(pairs) == 0,
    decreases pairs.len(),
{
    if pairs.len() > 0 {
        let rest = pairs.drop_last();
        assert forall|i: int| 0 <= i < rest.len() implies (#[trigger] rest[i]).0 == rest[i].1 by {
            assert(rest[i] == pairs[i]);
        }
        lemma_identical_transcriptions_have_no_errors(rest);
        assert(pairs.last() == pairs[pairs.len() - 1]);
        lemma_edit_distance_identical(spec_words(pairs.last().0));
    }
}

/// Transcriptions that differ from their references only in ASCII case count
/// no errors.
pub proof fn lemma_case_differences_are_no_errors(pairs: Seq<(Seq<char>, Seq<char>)>)
    requires
        forall|i: int|
            0 <= i < pairs.len() ==> (#[trigger] pairs[i]).0.len() == pairs[i].1.len() && forall|j: int|
                0 <= j < pairs[i].0.len() ==> ascii_lowercase(#[trigger] pairs[i].0[j])
                    == ascii_lowercase(pairs[i].1[j]),
    ensures
        total_errors(pairs) == 0,
    decreases pairs.len(),
{
    if pairs.len() > 0 {
        let rest = pairs.drop_last();
        assert forall|i: int| 0 <= i < rest.len() implies (#[trigger] rest[i]).0.len() == rest[i].1.len()
            && forall|j: int|
            0 <= j < rest[i].0.len() ==> ascii_lowercase(#[trigger] rest[i].0[j]) == ascii_lowercase(
                rest[i].1[j],
            ) by {
            assert(rest[i] == pairs[i]);
        }
        lemma_case_differences_are_no_errors(rest);
        let last = pairs[pairs.len() - 1];
        assert(pairs.last() == last);
        lemma_words_case_insensitive(last.0, last.1);
        lemma_edit_distance_identical(spec_words(last.0));
    }
}

/// `c` and `d` are the same character, or the same ASCII letter in upper
/// and lower case.
pub open spec fn same_ignoring_ascii_case(c: char, d: char) -> bool {
    ||| c == d
    ||| ('A' <= c <= 'Z' && d as u32 == c as u32 + 32)
    ||| ('A' <= d <= 'Z' && c as u32 == d as u32 + 32)
}

/// The words of a sentence are in lower case: no `A`-`Z` is left in them.
pub proof fn lemma_words_are_lowercase(s: Seq<char>)
    ensures
        forall|i: int, j: int|
            0 <= i < spec_words(s).len() && 0 <= j < spec_words(s)[i].len() ==> !('A'
                <= #[trigger] spec_words(s)[i][j] <= 'Z'),
{
    assert forall|i: int, j: int|
        0 <= i < spec_words(s).len() && 0 <= j < spec_words(s)[i].len() implies !('A'
            <= #[trigger] spec_words(s)[i][j] <= 'Z') by {
        let w = split_whitespace(s)[i];
        assert(spec_words(s)[i] == lowercase(w));
        crate::text::lemma_ascii_lowercase(w[j]);
    }
}

/// Sentences that differ only in the case of ASCII letters have the same
/// words, so a transcription that differs from its reference only so counts
/// no errors.
pub proof fn lemma_words_ignore_ascii_case(s: Seq<char>, t: Seq<char>)
    requires
        s.len() == t.len(),
        forall|i: int| 0 <= i < s.len() ==> same_ignoring_ascii_case(#[trigger] s[i], t[i]),
    ensures
        spec_words(s) == spec_words(t),
        edit_distance(spec_words(s), spec_words(t)) == 0,
{
    assert forall|i: int| 0 <= i < s.len() implies ascii_lowercase(#[trigger] s[i]) == ascii_lowercase(t[i]) by {
        crate::text::lemma_ascii_lowercase(s[i]);
        crate::text::lemma_ascii_lowercase(t[i]);
        assert(same_ignoring_ascii_case(s[i], t[i]));
    }
    lemma_words_case_insensitive(s, t);
    lemma_edit_distance_identical(spec_words(s));
}

} // verus!
