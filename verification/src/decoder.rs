//! CTC beam-search decoding for the `wav2vec 2.0` alphabet.
//!
//! CTC is a technique used in transformer models for automatic speech
//! recognition. A CTC decoder takes the output of such a model, fine-tuned with
//! a CTC loss, and returns a string in the alphabet of the model. Beam search
//! keeps the most probable prefixes after each timestep.

pub mod beam;
pub mod beams;

use vstd::prelude::*;

use crate::text::string_of;
use crate::util::log_space::{is_log_op, log_op, LogSpaceF32};

use self::beam::{
    beam_add_with_blank, beam_add_without_blank, blank_beam_view, prefix_lt, Beam, BeamView,
};
use self::beams::{
    beam_or_new, beam_views, beams_add_with_blank, beams_add_without_blank, from_listing,
    lemma_best_beam_is_most_probable, lemma_pruned_keeps_most_probable, lemma_sorted_desc,
    lemma_upsert_lookup, lookup,
    prefixes_sorted, pruned, sorted_desc, upsert, Beams,
};
use crate::util::log_space::{lemma_log_add_zero, spec_log_add};

verus! {

/// Index of the blank (padding) symbol in the alphabet.
pub const BLANK_IDX: usize = 0;

/// Number of symbols in the alphabet.
pub const ALPHABET_LEN: usize = 32;

/// The `wav2vec 2.0` alphabet: pad, begin sentence, end sentence, unknown,
/// word separator, then the letters and the apostrophe.
pub open spec fn spec_alphabet() -> Seq<char> {
    seq![
        '_', '{', '}', '?', ' ', 'e', 't', 'a', 'o', 'n', 'i', 'h', 's', 'r', 'd', 'l', 'u', 'm',
        'w', 'c', 'f', 'g', 'y', 'p', 'b', 'v', 'k', '\'', 'x', 'j', 'q', 'z',
    ]
}

/// The alphabet, indexed by symbol.
pub fn alphabet() -> (r: [char; 32])
    ensures
        r@ == spec_alphabet(),
{
    let r = [
        '_', '{', '}', '?', ' ', 'e', 't', 'a', 'o', 'n', 'i', 'h', 's', 'r', 'd', 'l', 'u', 'm',
        'w', 'c', 'f', 'g', 'y', 'p', 'b', 'v', 'k', '\'', 'x', 'j', 'q', 'z',
    ];
    assert(r@ =~= spec_alphabet());
    r
}

/// The contribution of symbol `idx`, with probability `p`, extending `beam`:
/// a blank keeps the prefix and ends it in a blank; a symbol equal to the last
/// one of the prefix both starts a repeat (after a blank) and collapses into
/// it (without a blank); any other symbol extends the prefix.
pub open spec fn symbol_update(
    acc: Seq<BeamView>,
    beam: BeamView,
    idx: int,
    p: LogSpaceF32,
    sum: spec_fn(LogSpaceF32, LogSpaceF32) -> LogSpaceF32,
    product: spec_fn(LogSpaceF32, LogSpaceF32) -> LogSpaceF32,
) -> Seq<BeamView> {
    let symbol = spec_alphabet()[idx];
    if idx == BLANK_IDX {
        beams_add_with_blank(acc, beam.prefix, product(beam.total, p), sum)
    } else if beam.prefix.len() > 0 && beam.prefix.last() == symbol {
        let repeated = beams_add_without_blank(
            acc,
            beam.prefix.push(symbol),
            product(beam.with_blank, p),
            sum,
        );
        beams_add_without_blank(repeated, beam.prefix, product(beam.without_blank, p), sum)
    } else {
        beams_add_without_blank(acc, beam.prefix.push(symbol), product(beam.total, p), sum)
    }
}

/// The contributions of the first `n` symbols extending `beam`, in order.
pub open spec fn beam_update(
    acc: Seq<BeamView>,
    beam: BeamView,
    probs: Seq<LogSpaceF32>,
    n: nat,
    sum: spec_fn(LogSpaceF32, LogSpaceF32) -> LogSpaceF32,
    product: spec_fn(LogSpaceF32, LogSpaceF32) -> LogSpaceF32,
) -> Seq<BeamView>
    decreases n,
{
    if n == 0 {
        acc
    } else {
        let prev = beam_update(acc, beam, probs, (n - 1) as nat, sum, product);
        symbol_update(prev, beam, n - 1, probs[n - 1], sum, product)
    }
}

/// The contributions of the first `n` beams of `listing`, in order.
pub open spec fn timestep_update(
    acc: Seq<BeamView>,
    listing: Seq<BeamView>,
    probs: Seq<LogSpaceF32>,
    n: nat,
    sum: spec_fn(LogSpaceF32, LogSpaceF32) -> LogSpaceF32,
    product: spec_fn(LogSpaceF32, LogSpaceF32) -> LogSpaceF32,
) -> Seq<BeamView>
    decreases n,
{
    if n == 0 {
        acc
    } else {
        let prev = timestep_update(acc, listing, probs, (n - 1) as nat, sum, product);
        beam_update(prev, listing[n - 1], probs, ALPHABET_LEN as nat, sum, product)
    }
}

/// The beams after one timestep with symbol probabilities `probs`: every beam,
/// most probable first, is extended by every symbol, and the `width` most
/// probable results are kept.
pub open spec fn next_beams(
    cur: Seq<BeamView>,
    probs: Seq<LogSpaceF32>,
    width: nat,
    sum: spec_fn(LogSpaceF32, LogSpaceF32) -> LogSpaceF32,
    product: spec_fn(LogSpaceF32, LogSpaceF32) -> LogSpaceF32,
) -> Seq<BeamView> {
    let listing = sorted_desc(cur);
    from_listing(
        pruned(timestep_update(Seq::empty(), listing, probs, listing.len(), sum, product), width),
    )
}

/// The beams after the timesteps `steps`, starting from the blank beam.
pub open spec fn beams_after(
    steps: Seq<Seq<LogSpaceF32>>,
    width: nat,
    sum: spec_fn(LogSpaceF32, LogSpaceF32) -> LogSpaceF32,
    product: spec_fn(LogSpaceF32, LogSpaceF32) -> LogSpaceF32,
) -> Seq<BeamView>
    decreases steps.len(),
{
    if steps.len() == 0 {
        seq![blank_beam_view()]
    } else {
        next_beams(beams_after(steps.drop_last(), width, sum, product), steps.last(), width, sum, product)
    }
}

/// The most probable prefix among `beams`.
pub open spec fn best_prefix(beams: Seq<BeamView>) -> Seq<char> {
    sorted_desc(beams)[0].prefix
}

/// The markers of sentence begin, sentence end and unknown symbol.
pub open spec fn is_marker(c: char) -> bool {
    c == '{' || c == '}' || c == '?'
}

/// `s` without its markers.
pub open spec fn without_markers(s: Seq<char>) -> Seq<char>
    decreases s.len(),
{
    if s.len() == 0 {
        s
    } else if is_marker(s.last()) {
        without_markers(s.drop_last())
    } else {
        without_markers(s.drop_last()).push(s.last())
    }
}

/// `s` without its leading spaces.
pub open spec fn trim_start_spaces(s: Seq<char>) -> Seq<char>
    decreases s.len(),
{
    if s.len() > 0 && s[0] == ' ' {
        trim_start_spaces(s.drop_first())
    } else {
        s
    }
}

/// `s` without its trailing spaces.
pub open spec fn trim_end_spaces(s: Seq<char>) -> Seq<char>
    decreases s.len(),
{
    if s.len() > 0 && s.last() == ' ' {
        trim_end_spaces(s.drop_last())
    } else {
        s
    }
}

/// A decoded prefix as a transcription: markers removed, then spaces trimmed
/// from both ends.
pub open spec fn cleaned(s: Seq<char>) -> Seq<char> {
    trim_end_spaces(trim_start_spaces(without_markers(s)))
}

proof fn lemma_trim_start(s: Seq<char>, i: int)
    requires
        0 <= i <= s.len(),
        forall|j: int| 0 <= j < i ==> s[j] == ' ',
        i < s.len() ==> s[i] != ' ',
    ensures
        trim_start_spaces(s) == s.skip(i),
    decreases i,
{
    if i == 0 {
        assert(s.skip(0) =~= s);
    } else {
        let t = s.drop_first();
        assert forall|j: int| 0 <= j < i - 1 implies t[j] == ' ' by {
            assert(t[j] == s[j + 1]);
        }
        if i < s.len() {
            assert(t[i - 1] == s[i]);
        }
        lemma_trim_start(t, i - 1);
        assert(t.skip(i - 1) =~= s.skip(i));
    }
}

proof fn lemma_trim_end(s: Seq<char>, i: int)
    requires
        0 <= i <= s.len(),
        forall|j: int| i <= j < s.len() ==> s[j] == ' ',
        i > 0 ==> s[i - 1] != ' ',
    ensures
        trim_end_spaces(s) == s.take(i),
    decreases s.len() - i,
{
    if i == s.len() {
        assert(s.take(i) =~= s);
    } else {
        let t = s.drop_last();
        lemma_trim_end(t, i);
        assert(t.take(i) =~= s.take(i));
    }
}

proof fn lemma_without_markers(s: Seq<char>)
    ensures
        forall|i: int| 0 <= i < without_markers(s).len() ==> !is_marker(#[trigger] without_markers(s)[i]),
    decreases s.len(),
{
    if s.len() > 0 {
        lemma_without_markers(s.drop_last());
        let prev = without_markers(s.drop_last());
        let cur = without_markers(s);
        assert forall|i: int| 0 <= i < cur.len() implies !is_marker(#[trigger] cur[i]) by {
            if i < prev.len() {
                assert(cur[i] == prev[i]);
            }
        }
    }
}

proof fn lemma_trim_start_suffix(s: Seq<char>)
    ensures
        trim_start_spaces(s).len() <= s.len(),
        trim_start_spaces(s) == s.skip(s.len() - trim_start_spaces(s).len()),
        trim_start_spaces(s).len() > 0 ==> trim_start_spaces(s)[0] != ' ',
        forall|k: int| 0 <= k < s.len() - trim_start_spaces(s).len() ==> s[k] == ' ',
    decreases s.len(),
{
    if s.len() > 0 && s[0] == ' ' {
        lemma_trim_start_suffix(s.drop_first());
        let r = trim_start_spaces(s);
        assert(s.drop_first().skip(s.len() - 1 - r.len()) =~= s.skip(s.len() - r.len()));
        assert forall|k: int| 0 <= k < s.len() - r.len() implies s[k] == ' ' by {
            if k > 0 {
                assert(s[k] == s.drop_first()[k - 1]);
            }
        }
    } else {
        assert(s.skip(0) =~= s);
    }
}

proof fn lemma_trim_end_prefix(s: Seq<char>)
    ensures
        trim_end_spaces(s).len() <= s.len(),
        trim_end_spaces(s) == s.take(trim_end_spaces(s).len() as int),
        trim_end_spaces(s).len() > 0 ==> trim_end_spaces(s).last() != ' ',
        forall|k: int| trim_end_spaces(s).len() <= k < s.len() ==> s[k] == ' ',
    decreases s.len(),
{
    if s.len() > 0 && s.last() == ' ' {
        lemma_trim_end_prefix(s.drop_last());
        let r = trim_end_spaces(s);
        assert(s.drop_last().take(r.len() as int) =~= s.take(r.len() as int));
        assert forall|k: int| r.len() <= k < s.len() implies s[k] == ' ' by {
            if k < s.len() - 1 {
                assert(s[k] == s.drop_last()[k]);
            }
        }
    } else {
        assert(s.take(s.len() as int) =~= s);
    }
}

/// A transcription holds no markers, and neither begins nor ends with a space.
pub proof fn lemma_cleaned(s: Seq<char>)
    ensures
        forall|i: int| 0 <= i < cleaned(s).len() ==> !is_marker(#[trigger] cleaned(s)[i]),
        cleaned(s).len() > 0 ==> cleaned(s)[0] != ' ' && cleaned(s).last() != ' ',
{
    let w = without_markers(s);
    let t = trim_start_spaces(w);
    let c = trim_end_spaces(t);
    lemma_without_markers(s);
    lemma_trim_start_suffix(w);
    lemma_trim_end_prefix(t);
    assert forall|i: int| 0 <= i < c.len() implies !is_marker(#[trigger] c[i]) by {
        assert(c[i] == t[i]);
        assert(t[i] == w[i + (w.len() - t.len())]);
    }
    if c.len() > 0 {
        assert(c[0] == t[0]);
    }
}

/// The characters of `s` other than the markers `{`, `}` and `?`, in order.
pub open spec fn non_markers(s: Seq<char>) -> Seq<char> {
    s.filter(|c: char| c != '{' && c != '}' && c != '?')
}

proof fn lemma_without_markers_filters(s: Seq<char>)
    ensures
        without_markers(s) == non_markers(s),
    decreases s.len(),
{
    reveal_with_fuel(Seq::filter, 1);
    if s.len() > 0 {
        lemma_without_markers_filters(s.drop_last());
    }
}

/// Cleaning keeps every character of `s` but the markers `{`, `}` and `?`,
/// in order, and then drops exactly the spaces at either end: the result is
/// a stretch of those characters with only spaces before and after it, and
/// it neither begins nor ends with a space.
pub proof fn lemma_cleaned_keeps_all_but_markers(s: Seq<char>)
    ensures
        without_markers(s) == non_markers(s),
        exists|i: int, j: int|
            {
                &&& 0 <= i <= j <= non_markers(s).len()
                &&& forall|k: int| 0 <= k < i ==> #[trigger] non_markers(s)[k] == ' '
                &&& forall|k: int| j <= k < non_markers(s).len() ==> #[trigger] non_markers(s)[k] == ' '
                &&& cleaned(s) == non_markers(s).subrange(i, j)
            },
        cleaned(s).len() > 0 ==> cleaned(s)[0] != ' ' && cleaned(s).last() != ' ',
{
    lemma_without_markers_filters(s);
    lemma_cleaned(s);
    let f = non_markers(s);
    let t = trim_start_spaces(f);
    let c = trim_end_spaces(t);
    lemma_trim_start_suffix(f);
    lemma_trim_end_prefix(t);
    let i = f.len() - t.len();
    let j = i + c.len();
    assert forall|k: int| j <= k < f.len() implies #[trigger] f[k] == ' ' by {
        assert(f[k] == t[k - i]);
    }
    assert(c =~= f.subrange(i, j));
}

/// Removes the markers and the surrounding spaces from a decoded prefix.
pub fn clean_transcription(decoded: &Vec<char>) -> (r: String)
    ensures
        r@ == cleaned(decoded@),
{
    let mut kept: Vec<char> = Vec::new();
    let mut i: usize = 0;
    while i < decoded.len()
        invariant
            i <= decoded@.len(),
            kept@ == without_markers(decoded@.take(i as int)),
        decreases decoded@.len() - i,
    {
        assert(decoded@.take(i + 1).drop_last() =~= decoded@.take(i as int));
        let c = decoded[i];
        if !(c == '{' || c == '}' || c == '?') {
            kept.push(c);
        }
        i = i + 1;
    }
    assert(decoded@.take(decoded@.len() as int) =~= decoded@);
    let mut start: usize = 0;
    while start < kept.len() && kept[start] == ' '
        invariant
            start <= kept@.len(),
            forall|j: int| 0 <= j < start ==> kept@[j] == ' ',
        decreases kept@.len() - start,
    {
        start = start + 1;
    }
    proof {
        lemma_trim_start(kept@, start as int);
    }
    let mut end: usize = kept.len();
    while end > start && kept[end - 1] == ' '
        invariant
            start <= end <= kept@.len(),
            forall|j: int| end <= j < kept@.len() ==> kept@[j] == ' ',
        decreases end,
    {
        end = end - 1;
    }
    proof {
        let t = kept@.skip(start as int);
        assert forall|j: int| end - start <= j < t.len() implies t[j] == ' ' by {
            assert(t[j] == kept@[j + start]);
        }
        if end > start {
            assert(t[end - start - 1] == kept@[end - 1]);
        }
        lemma_trim_end(t, end - start);
        assert(t.take(end - start) =~= kept@.subrange(start as int, end as int));
    }
    string_of(kept.as_slice(), start, end)
}

/// A CTC beam-search decoder for the `wav2vec 2.0` alphabet.
pub struct CTCDecoder {
    beam_width: usize,
    beams: Beams,
    new_beams: Beams,
}

impl CTCDecoder {
    /// The beams kept after the timesteps processed so far.
    pub closed spec fn beams_view(&self) -> Seq<BeamView> {
        self.beams@
    }

    /// The number of beams kept after each timestep.
    pub closed spec fn width(&self) -> nat {
        self.beam_width as nat
    }

    /// At least one beam is kept, no kept prefix holds the blank, and no
    /// timestep is half processed.
    pub closed spec fn wf(&self) -> bool {
        &&& self.beams.wf()
        &&& self.beams@.len() > 0
        &&& no_blank(self.beams@)
        &&& self.new_beams.wf()
        &&& self.new_beams@ == Seq::<BeamView>::empty()
    }

    /// A decoder that keeps `beam_width` beams, starting from the blank beam.
    /// The larger the `beam_width`, the more accurate, but the more expensive.
    pub fn new(beam_width: usize) -> (r: Self)
        ensures
            r.wf(),
            r.width() == beam_width,
            r.beams_view() == seq![blank_beam_view()],
            r.beams_view().len() > 0,
            prefixes_sorted(r.beams_view()),
            no_blank(r.beams_view()),
    {
        let mut beams = Beams::new();
        beams.add(Beam::blank());
        CTCDecoder { beam_width, beams, new_beams: Beams::new() }
    }

    /// Processes one timestep of symbol log-probabilities (one per symbol of
    /// the alphabet, in alphabet order), with the log-space sum kernel
    /// `log_sum` and product kernel `log_product`.
    pub fn process_timestep<S, P>(&mut self, log_probs: &[LogSpaceF32], log_sum: &S, log_product: &P)
        where
            S: Fn(LogSpaceF32, LogSpaceF32) -> LogSpaceF32,
            P: Fn(LogSpaceF32, LogSpaceF32) -> LogSpaceF32,
        requires
            old(self).wf(),
            old(self).width() >= 1,
            log_probs@.len() == ALPHABET_LEN,
            is_log_op(*log_sum),
            is_log_op(*log_product),
        ensures
            final(self).wf(),
            final(self).width() == old(self).width(),
            final(self).beams_view().len() <= old(self).width(),
            final(self).beams_view().len() > 0,
            prefixes_sorted(final(self).beams_view()),
            no_blank(final(self).beams_view()),
            all_grow_from(final(self).beams_view(), old(self).beams_view()),
            final(self).beams_view() == next_beams(
                old(self).beams_view(),
                log_probs@,
                old(self).width(),
                log_op(*log_sum),
                log_op(*log_product),
            ),
    {
        let ghost sum = log_op(*log_sum);
        let ghost product = log_op(*log_product);
        let ghost probs = log_probs@;
        let listing = self.beams.iter();
        let ghost lv = beam_views(listing@);
        let symbols = alphabet();
        let mut bi: usize = 0;
        while bi < listing.len()
            invariant
                self.new_beams.wf(),
                self.beams.wf(),
                self.beams@.len() > 0,
                lv == beam_views(listing@),
                lv == sorted_desc(self.beams@),
                symbols@ == spec_alphabet(),
                probs == log_probs@,
                probs.len() == ALPHABET_LEN,
                sum == log_op(*log_sum),
                product == log_op(*log_product),
                is_log_op(*log_sum),
                is_log_op(*log_product),
                bi <= listing@.len(),
                self.new_beams@ == timestep_update(Seq::empty(), lv, probs, bi as nat, sum, product),
                bi > 0 ==> self.new_beams@.len() > 0,
                self.beams == old(self).beams,
                self.beam_width == old(self).beam_width,
            decreases listing@.len() - bi,
        {
            let beam = &listing[bi];
            let ghost bv = lv[bi as int];
            assert(bv == beam@);
            let ghost start = self.new_beams@;
            let mut si: usize = 0;
            while si < ALPHABET_LEN
                invariant
                    self.new_beams.wf(),
                    bv == beam@,
                    symbols@ == spec_alphabet(),
                    probs == log_probs@,
                    probs.len() == ALPHABET_LEN,
                    sum == log_op(*log_sum),
                    product == log_op(*log_product),
                    is_log_op(*log_sum),
                    is_log_op(*log_product),
                    si <= ALPHABET_LEN,
                    self.new_beams@ == beam_update(start, bv, probs, si as nat, sum, product),
                    si > 0 ==> self.new_beams@.len() > 0,
                    self.beams == old(self).beams,
                    self.beam_width == old(self).beam_width,
                decreases ALPHABET_LEN - si,
            {
                let symbol = symbols[si];
                let p = log_probs[si];
                let prefix = beam.prefix();
                if si == BLANK_IDX {
                    let rhs = beam.total_probability().mul(p, log_product);
                    self.new_beams.add_to_probability_with_blank(prefix, rhs, log_sum);
                } else if prefix.len() > 0 && prefix[prefix.len() - 1] == symbol {
                    let mut extended = prefix.clone();
                    extended.push(symbol);
                    let repeated = beam.probability_with_blank().mul(p, log_product);
                    self.new_beams.add_to_probability_without_blank(&extended, repeated, log_sum);
                    let collapsed = beam.probability_without_blank().mul(p, log_product);
                    self.new_beams.add_to_probability_without_blank(prefix, collapsed, log_sum);
                } else {
                    let mut extended = prefix.clone();
                    extended.push(symbol);
                    let rhs = beam.total_probability().mul(p, log_product);
                    self.new_beams.add_to_probability_without_blank(&extended, rhs, log_sum);
                }
                si = si + 1;
            }
            bi = bi + 1;
        }
        let width = self.beam_width;
        self.beams.extend_pruned(&mut self.new_beams, width);
        proof {
            lemma_next_beams_prefixes(old(self).beams_view(), probs, width as nat, sum, product);
            lemma_next_beams_no_blank(old(self).beams_view(), probs, width as nat, sum, product);
        }
    }

    /// A decoder keeps at least one beam, and no two beams with the same prefix.
    pub proof fn lemma_kept_beams(&self)
        requires
            self.wf(),
        ensures
            self.beams_view().len() > 0,
            prefixes_sorted(self.beams_view()),
            no_blank(self.beams_view()),
    {
    }

    /// The number of beams kept after each timestep.
    pub fn beam_width(&self) -> (r: usize)
        ensures
            r == self.width(),
    {
        self.beam_width
    }

    /// The most probable prefix after the timesteps processed so far.
    pub fn decode(&self) -> (r: String)
        requires
            self.wf(),
        ensures
            r@ == best_prefix(self.beams_view()),
            !r@.contains(spec_alphabet()[BLANK_IDX as int]),
    {
        proof {
            lemma_best_beam_is_most_probable(self.beams@);
            let best = sorted_desc(self.beams@)[0];
            let i = choose|i: int| 0 <= i < self.beams@.len() && self.beams@[i] == best;
            assert(!self.beams@[i].prefix.contains(spec_alphabet()[BLANK_IDX as int]));
        }
        match self.beams.max() {
            Some(best) => {
                let prefix = best.prefix();
                string_of(prefix.as_slice(), 0, prefix.len())
            },
            None => String::new(),
        }
    }

    /// Decodes the timesteps `timestep_log_probs` (each one log-probability
    /// per symbol) with `beam_width` beams, and cleans the most probable
    /// prefix into a transcription.
    pub fn decode_log_probs<S, P>(
        timestep_log_probs: &Vec<Vec<LogSpaceF32>>,
        beam_width: usize,
        log_sum: &S,
        log_product: &P,
    ) -> (r: String)
        where
            S: Fn(LogSpaceF32, LogSpaceF32) -> LogSpaceF32,
            P: Fn(LogSpaceF32, LogSpaceF32) -> LogSpaceF32,
        requires
            forall|t: int|
                0 <= t < timestep_log_probs@.len() ==> #[trigger] timestep_log_probs@[t]@.len()
                    == ALPHABET_LEN,
            timestep_log_probs@.len() > 0 ==> beam_width >= 1,
            is_log_op(*log_sum),
            is_log_op(*log_product),
        ensures
            r@ == cleaned(
                best_prefix(
                    beams_after(
                        steps_view(timestep_log_probs@),
                        beam_width as nat,
                        log_op(*log_sum),
                        log_op(*log_product),
                    ),
                ),
            ),
    {
        let ghost steps = steps_view(timestep_log_probs@);
        let mut decoder = CTCDecoder::new(beam_width);
        let mut t: usize = 0;
        while t < timestep_log_probs.len()
            invariant
                steps == steps_view(timestep_log_probs@),
                t <= timestep_log_probs@.len(),
                decoder.wf(),
                decoder.width() == beam_width,
                forall|u: int|
                    0 <= u < timestep_log_probs@.len() ==> #[trigger] timestep_log_probs@[u]@.len()
                        == ALPHABET_LEN,
                timestep_log_probs@.len() > 0 ==> beam_width >= 1,
                is_log_op(*log_sum),
                is_log_op(*log_product),
                decoder.beams_view() == beams_after(
                    steps.take(t as int),
                    beam_width as nat,
                    log_op(*log_sum),
                    log_op(*log_product),
                ),
            decreases timestep_log_probs@.len() - t,
        {
            assert(steps.take(t + 1).drop_last() =~= steps.take(t as int));
            assert(steps.take(t + 1).last() == timestep_log_probs@[t as int]@);
            decoder.process_timestep(timestep_log_probs[t].as_slice(), log_sum, log_product);
            t = t + 1;
        }
        assert(steps.take(timestep_log_probs@.len() as int) =~= steps);
        let best = match decoder.beams.max() {
            Some(best) => best.prefix().clone(),
            None => Vec::new(),
        };
        clean_transcription(&best)
    }
}

/// The symbol log-probabilities of each timestep.
pub open spec fn steps_view(steps: Seq<Vec<LogSpaceF32>>) -> Seq<Seq<LogSpaceF32>> {
    steps.map_values(|v: Vec<LogSpaceF32>| v@)
}

/// The probability of a beam is the log-space sum of the probabilities of its
/// prefix ending and not ending in a blank.
pub open spec fn total_is_sum(b: BeamView, sum: spec_fn(LogSpaceF32, LogSpaceF32) -> LogSpaceF32) -> bool {
    b.total == spec_log_add(sum, b.with_blank, b.without_blank)
}

/// All beams of `s` have consistent totals.
pub open spec fn all_totals_are_sums(
    s: Seq<BeamView>,
    sum: spec_fn(LogSpaceF32, LogSpaceF32) -> LogSpaceF32,
) -> bool {
    forall|i: int| 0 <= i < s.len() ==> total_is_sum(#[trigger] s[i], sum)
}

proof fn lemma_upsert_keeps_totals(
    s: Seq<BeamView>,
    b: BeamView,
    sum: spec_fn(LogSpaceF32, LogSpaceF32) -> LogSpaceF32,
)
    requires
        prefixes_sorted(s),
        all_totals_are_sums(s, sum),
        total_is_sum(b, sum),
    ensures
        prefixes_sorted(upsert(s, b)),
        all_totals_are_sums(upsert(s, b), sum),
{
    lemma_upsert_lookup(s, b, b.prefix);
    let u = upsert(s, b);
    assert forall|i: int| 0 <= i < u.len() implies total_is_sum(#[trigger] u[i], sum) by {
        if u[i] != b {
            let k = choose|k: int| 0 <= k < s.len() && s[k] == u[i];
            assert(total_is_sum(s[k], sum));
        }
    }
}

proof fn lemma_symbol_update_keeps_totals(
    acc: Seq<BeamView>,
    beam: BeamView,
    idx: int,
    p: LogSpaceF32,
    sum: spec_fn(LogSpaceF32, LogSpaceF32) -> LogSpaceF32,
    product: spec_fn(LogSpaceF32, LogSpaceF32) -> LogSpaceF32,
)
    requires
        prefixes_sorted(acc),
        all_totals_are_sums(acc, sum),
    ensures
        prefixes_sorted(symbol_update(acc, beam, idx, p, sum, product)),
        all_totals_are_sums(symbol_update(acc, beam, idx, p, sum, product), sum),
{
    let symbol = spec_alphabet()[idx];
    if idx == BLANK_IDX {
        let b = self::beams::beam_or_new(acc, beam.prefix);
        lemma_upsert_keeps_totals(
            acc,
            self::beam::beam_add_with_blank(b, product(beam.total, p), sum),
            sum,
        );
    } else if beam.prefix.len() > 0 && beam.prefix.last() == symbol {
        let ext = beam.prefix.push(symbol);
        let b1 = self::beams::beam_or_new(acc, ext);
        let nb1 = self::beam::beam_add_without_blank(b1, product(beam.with_blank, p), sum);
        lemma_upsert_keeps_totals(acc, nb1, sum);
        let acc1 = upsert(acc, nb1);
        let b2 = self::beams::beam_or_new(acc1, beam.prefix);
        lemma_upsert_keeps_totals(
            acc1,
            self::beam::beam_add_without_blank(b2, product(beam.without_blank, p), sum),
            sum,
        );
    } else {
        let ext = beam.prefix.push(symbol);
        let b = self::beams::beam_or_new(acc, ext);
        lemma_upsert_keeps_totals(
            acc,
            self::beam::beam_add_without_blank(b, product(beam.total, p), sum),
            sum,
        );
    }
}

proof fn lemma_beam_update_keeps_totals(
    acc: Seq<BeamView>,
    beam: BeamView,
    probs: Seq<LogSpaceF32>,
    n: nat,
    sum: spec_fn(LogSpaceF32, LogSpaceF32) -> LogSpaceF32,
    product: spec_fn(LogSpaceF32, LogSpaceF32) -> LogSpaceF32,
)
    requires
        prefixes_sorted(acc),
        all_totals_are_sums(acc, sum),
    ensures
        prefixes_sorted(beam_update(acc, beam, probs, n, sum, product)),
        all_totals_are_sums(beam_update(acc, beam, probs, n, sum, product), sum),
    decreases n,
{
    if n > 0 {
        lemma_beam_update_keeps_totals(acc, beam, probs, (n - 1) as nat, sum, product);
        let prev = beam_update(acc, beam, probs, (n - 1) as nat, sum, product);
        lemma_symbol_update_keeps_totals(prev, beam, n - 1, probs[n - 1], sum, product);
    }
}

proof fn lemma_timestep_update_keeps_totals(
    acc: Seq<BeamView>,
    listing: Seq<BeamView>,
    probs: Seq<LogSpaceF32>,
    n: nat,
    sum: spec_fn(LogSpaceF32, LogSpaceF32) -> LogSpaceF32,
    product: spec_fn(LogSpaceF32, LogSpaceF32) -> LogSpaceF32,
)
    requires
        prefixes_sorted(acc),
        all_totals_are_sums(acc, sum),
    ensures
        prefixes_sorted(timestep_update(acc, listing, probs, n, sum, product)),
        all_totals_are_sums(timestep_update(acc, listing, probs, n, sum, product), sum),
    decreases n,
{
    if n > 0 {
        lemma_timestep_update_keeps_totals(acc, listing, probs, (n - 1) as nat, sum, product);
        let prev = timestep_update(acc, listing, probs, (n - 1) as nat, sum, product);
        lemma_beam_update_keeps_totals(prev, listing[n - 1], probs, ALPHABET_LEN as nat, sum, product);
    }
}

proof fn lemma_from_listing_keeps_totals(l: Seq<BeamView>, sum: spec_fn(LogSpaceF32, LogSpaceF32) -> LogSpaceF32)
    requires
        all_totals_are_sums(l, sum),
    ensures
        prefixes_sorted(from_listing(l)),
        all_totals_are_sums(from_listing(l), sum),
    decreases l.len(),
{
    if l.len() > 0 {
        let t = l.drop_last();
        assert forall|i: int| 0 <= i < t.len() implies total_is_sum(#[trigger] t[i], sum) by {
            assert(t[i] == l[i]);
        }
        lemma_from_listing_keeps_totals(t, sum);
        assert(total_is_sum(l[l.len() - 1], sum));
        lemma_upsert_keeps_totals(from_listing(t), l.last(), sum);
    }
}

/// Every beam kept after a timestep has as probability the log-space sum of
/// the probabilities of its prefix ending and not ending in a blank.
pub proof fn lemma_next_beams_totals_are_sums(
    cur: Seq<BeamView>,
    probs: Seq<LogSpaceF32>,
    width: nat,
    sum: spec_fn(LogSpaceF32, LogSpaceF32) -> LogSpaceF32,
    product: spec_fn(LogSpaceF32, LogSpaceF32) -> LogSpaceF32,
)
    ensures
        prefixes_sorted(next_beams(cur, probs, width, sum, product)),
        all_totals_are_sums(next_beams(cur, probs, width, sum, product), sum),
{
    let listing = sorted_desc(cur);
    let e = Seq::<BeamView>::empty();
    lemma_timestep_update_keeps_totals(e, listing, probs, listing.len(), sum, product);
    let candidates = timestep_update(e, listing, probs, listing.len(), sum, product);
    lemma_pruned_keeps_most_probable(candidates, width);
    let kept = pruned(candidates, width);
    assert forall|i: int| 0 <= i < kept.len() implies total_is_sum(#[trigger] kept[i], sum) by {
        assert(candidates.contains(kept[i]));
        let k = choose|k: int| 0 <= k < candidates.len() && candidates[k] == kept[i];
        assert(total_is_sum(candidates[k], sum));
    }
    lemma_from_listing_keeps_totals(kept, sum);
}

/// At every timestep, every beam has as probability the log-space sum of the
/// probabilities of its prefix ending and not ending in a blank.
pub proof fn lemma_beams_after_totals_are_sums(
    steps: Seq<Seq<LogSpaceF32>>,
    width: nat,
    sum: spec_fn(LogSpaceF32, LogSpaceF32) -> LogSpaceF32,
    product: spec_fn(LogSpaceF32, LogSpaceF32) -> LogSpaceF32,
)
    ensures
        prefixes_sorted(beams_after(steps, width, sum, product)),
        all_totals_are_sums(beams_after(steps, width, sum, product), sum),
    decreases steps.len(),
{
    if steps.len() == 0 {
        lemma_log_add_zero(sum, blank_beam_view().with_blank);
        assert(total_is_sum(seq![blank_beam_view()][0], sum));
    } else {
        lemma_next_beams_totals_are_sums(
            beams_after(steps.drop_last(), width, sum, product),
            steps.last(),
            width,
            sum,
            product,
        );
    }
}


/// What one symbol contributes, read back by prefix. With the prefix `p` of
/// `beam`, the symbol's probability `prob` and the symbol `s`:
/// - the blank adds `beam`'s probability times `prob` to `p` ending in a blank;
/// - `s` equal to the last character of `p` (a repeat, which CTC merges
///   unless a blank separates it) adds the probability of `p` ending in a
///   blank times `prob` to `p + s`, and the probability of `p` not ending in
///   a blank times `prob` to `p` itself;
/// - any other `s` adds `beam`'s probability times `prob` to `p + s`.
///
/// Every other prefix is left as it was.
pub proof fn lemma_symbol_update_lookup(
    acc: Seq<BeamView>,
    beam: BeamView,
    idx: int,
    prob: LogSpaceF32,
    sum: spec_fn(LogSpaceF32, LogSpaceF32) -> LogSpaceF32,
    product: spec_fn(LogSpaceF32, LogSpaceF32) -> LogSpaceF32,
    q: Seq<char>,
)
    requires
        prefixes_sorted(acc),
        0 <= idx < ALPHABET_LEN,
    ensures
        ({
            let p = beam.prefix;
            let s = spec_alphabet()[idx];
            let r = symbol_update(acc, beam, idx, prob, sum, product);
            &&& idx == BLANK_IDX ==> {
                &&& lookup(r, p) == Some(beam_add_with_blank(beam_or_new(acc, p), product(beam.total, prob), sum))
                &&& q != p ==> lookup(r, q) == lookup(acc, q)
            }
            &&& idx != BLANK_IDX && p.len() > 0 && s == p[p.len() - 1] ==> {
                &&& lookup(r, p.push(s)) == Some(
                    beam_add_without_blank(beam_or_new(acc, p.push(s)), product(beam.with_blank, prob), sum),
                )
                &&& lookup(r, p) == Some(
                    beam_add_without_blank(beam_or_new(acc, p), product(beam.without_blank, prob), sum),
                )
                &&& q != p && q != p.push(s) ==> lookup(r, q) == lookup(acc, q)
            }
            &&& idx != BLANK_IDX && !(p.len() > 0 && s == p[p.len() - 1]) ==> {
                &&& lookup(r, p.push(s)) == Some(
                    beam_add_without_blank(beam_or_new(acc, p.push(s)), product(beam.total, prob), sum),
                )
                &&& q != p.push(s) ==> lookup(r, q) == lookup(acc, q)
            }
        }),
{
    let p = beam.prefix;
    let s = spec_alphabet()[idx];
    let ext = p.push(s);
    assert(ext.len() == p.len() + 1);
    assert(p != ext);
    lemma_lookup_prefix(acc, p);
    lemma_lookup_prefix(acc, ext);
    if idx == BLANK_IDX {
        let b = beam_add_with_blank(beam_or_new(acc, p), product(beam.total, prob), sum);
        lemma_upsert_lookup(acc, b, q);
    } else if p.len() > 0 && p.last() == s {
        let b1 = beam_add_without_blank(beam_or_new(acc, ext), product(beam.with_blank, prob), sum);
        lemma_upsert_lookup(acc, b1, q);
        lemma_upsert_lookup(acc, b1, p);
        let acc1 = upsert(acc, b1);
        lemma_lookup_prefix(acc1, p);
        assert(beam_or_new(acc1, p) == beam_or_new(acc, p));
        let b2 = beam_add_without_blank(beam_or_new(acc1, p), product(beam.without_blank, prob), sum);
        lemma_upsert_lookup(acc1, b2, q);
        lemma_upsert_lookup(acc1, b2, ext);
    } else {
        let b = beam_add_without_blank(beam_or_new(acc, ext), product(beam.total, prob), sum);
        lemma_upsert_lookup(acc, b, q);
    }
}

/// `p` is `q` followed by one symbol of the alphabet other than the blank.
pub open spec fn extends_by_symbol(p: Seq<char>, q: Seq<char>) -> bool {
    exists|k: int| 1 <= k < ALPHABET_LEN && p == q.push(#[trigger] spec_alphabet()[k])
}

/// `p` is the prefix of a beam of `cur`, or such a prefix followed by one
/// symbol other than the blank.
pub open spec fn grows_from(cur: Seq<BeamView>, p: Seq<char>) -> bool {
    exists|i: int|
        0 <= i < cur.len() && (p == #[trigger] cur[i].prefix || extends_by_symbol(p, cur[i].prefix))
}

/// Every beam of `s` has a prefix that grows from `cur`.
pub open spec fn all_grow_from(s: Seq<BeamView>, cur: Seq<BeamView>) -> bool {
    forall|j: int| 0 <= j < s.len() ==> grows_from(cur, #[trigger] s[j].prefix)
}

proof fn lemma_lookup_prefix(s: Seq<BeamView>, p: Seq<char>)
    ensures
        lookup(s, p) matches Some(b) ==> b.prefix == p,
    decreases s.len(),
{
    if s.len() > 0 && s[0].prefix != p {
        lemma_lookup_prefix(s.drop_first(), p);
    }
}

proof fn lemma_upsert_len(s: Seq<BeamView>, b: BeamView)
    ensures
        0 < upsert(s, b).len() <= s.len() + 1,
    decreases s.len(),
{
    if s.len() > 0 && s[0].prefix != b.prefix && !prefix_lt(b.prefix, s[0].prefix) {
        lemma_upsert_len(s.drop_first(), b);
    }
}

proof fn lemma_upsert_grows(acc: Seq<BeamView>, b: BeamView, cur: Seq<BeamView>)
    requires
        prefixes_sorted(acc),
        all_grow_from(acc, cur),
        grows_from(cur, b.prefix),
    ensures
        prefixes_sorted(upsert(acc, b)),
        all_grow_from(upsert(acc, b), cur),
        0 < upsert(acc, b).len() <= acc.len() + 1,
{
    lemma_upsert_lookup(acc, b, b.prefix);
    lemma_upsert_len(acc, b);
    let u = upsert(acc, b);
    assert forall|j: int| 0 <= j < u.len() implies grows_from(cur, #[trigger] u[j].prefix) by {
        if u[j] != b {
            let k = choose|k: int| 0 <= k < acc.len() && acc[k] == u[j];
            assert(grows_from(cur, acc[k].prefix));
        }
    }
}

proof fn lemma_symbol_update_grows(
    acc: Seq<BeamView>,
    beam: BeamView,
    idx: int,
    p: LogSpaceF32,
    sum: spec_fn(LogSpaceF32, LogSpaceF32) -> LogSpaceF32,
    product: spec_fn(LogSpaceF32, LogSpaceF32) -> LogSpaceF32,
    cur: Seq<BeamView>,
)
    requires
        prefixes_sorted(acc),
        all_grow_from(acc, cur),
        cur.contains(beam),
        0 <= idx < ALPHABET_LEN,
    ensures
        prefixes_sorted(symbol_update(acc, beam, idx, p, sum, product)),
        all_grow_from(symbol_update(acc, beam, idx, p, sum, product), cur),
        symbol_update(acc, beam, idx, p, sum, product).len() > 0,
{
    let symbol = spec_alphabet()[idx];
    let i = choose|i: int| 0 <= i < cur.len() && cur[i] == beam;
    assert(beam.prefix == cur[i].prefix);
    assert(grows_from(cur, beam.prefix));
    let ext = beam.prefix.push(symbol);
    if idx != BLANK_IDX {
        assert(extends_by_symbol(ext, cur[i].prefix));
        assert(grows_from(cur, ext));
    }
    if idx == BLANK_IDX {
        lemma_lookup_prefix(acc, beam.prefix);
        let b = beam_add_with_blank(beam_or_new(acc, beam.prefix), product(beam.total, p), sum);
        lemma_upsert_grows(acc, b, cur);
    } else if beam.prefix.len() > 0 && beam.prefix.last() == symbol {
        lemma_lookup_prefix(acc, ext);
        let b1 = beam_add_without_blank(beam_or_new(acc, ext), product(beam.with_blank, p), sum);
        lemma_upsert_grows(acc, b1, cur);
        let acc1 = upsert(acc, b1);
        lemma_lookup_prefix(acc1, beam.prefix);
        let b2 = beam_add_without_blank(
            beam_or_new(acc1, beam.prefix),
            product(beam.without_blank, p),
            sum,
        );
        lemma_upsert_grows(acc1, b2, cur);
    } else {
        lemma_lookup_prefix(acc, ext);
        let b = beam_add_without_blank(beam_or_new(acc, ext), product(beam.total, p), sum);
        lemma_upsert_grows(acc, b, cur);
    }
}

proof fn lemma_beam_update_grows(
    acc: Seq<BeamView>,
    beam: BeamView,
    probs: Seq<LogSpaceF32>,
    n: nat,
    sum: spec_fn(LogSpaceF32, LogSpaceF32) -> LogSpaceF32,
    product: spec_fn(LogSpaceF32, LogSpaceF32) -> LogSpaceF32,
    cur: Seq<BeamView>,
)
    requires
        prefixes_sorted(acc),
        all_grow_from(acc, cur),
        cur.contains(beam),
        n <= ALPHABET_LEN,
    ensures
        prefixes_sorted(beam_update(acc, beam, probs, n, sum, product)),
        all_grow_from(beam_update(acc, beam, probs, n, sum, product), cur),
        n > 0 ==> beam_update(acc, beam, probs, n, sum, product).len() > 0,
    decreases n,
{
    if n > 0 {
        lemma_beam_update_grows(acc, beam, probs, (n - 1) as nat, sum, product, cur);
        let prev = beam_update(acc, beam, probs, (n - 1) as nat, sum, product);
        lemma_symbol_update_grows(prev, beam, n - 1, probs[n - 1], sum, product, cur);
    }
}

proof fn lemma_timestep_update_grows(
    acc: Seq<BeamView>,
    listing: Seq<BeamView>,
    probs: Seq<LogSpaceF32>,
    n: nat,
    sum: spec_fn(LogSpaceF32, LogSpaceF32) -> LogSpaceF32,
    product: spec_fn(LogSpaceF32, LogSpaceF32) -> LogSpaceF32,
    cur: Seq<BeamView>,
)
    requires
        prefixes_sorted(acc),
        all_grow_from(acc, cur),
        forall|j: int| 0 <= j < listing.len() ==> cur.contains(#[trigger] listing[j]),
        n <= listing.len(),
    ensures
        prefixes_sorted(timestep_update(acc, listing, probs, n, sum, product)),
        all_grow_from(timestep_update(acc, listing, probs, n, sum, product), cur),
        n > 0 ==> timestep_update(acc, listing, probs, n, sum, product).len() > 0,
    decreases n,
{
    if n > 0 {
        lemma_timestep_update_grows(acc, listing, probs, (n - 1) as nat, sum, product, cur);
        let prev = timestep_update(acc, listing, probs, (n - 1) as nat, sum, product);
        assert(cur.contains(listing[n - 1]));
        lemma_beam_update_grows(prev, listing[n - 1], probs, ALPHABET_LEN as nat, sum, product, cur);
    }
}

proof fn lemma_from_listing_grows(l: Seq<BeamView>, cur: Seq<BeamView>)
    requires
        all_grow_from(l, cur),
    ensures
        prefixes_sorted(from_listing(l)),
        all_grow_from(from_listing(l), cur),
        from_listing(l).len() <= l.len(),
        l.len() > 0 ==> from_listing(l).len() > 0,
    decreases l.len(),
{
    if l.len() > 0 {
        let t = l.drop_last();
        assert forall|j: int| 0 <= j < t.len() implies grows_from(cur, #[trigger] t[j].prefix) by {
            assert(t[j] == l[j]);
        }
        lemma_from_listing_grows(t, cur);
        assert(grows_from(cur, l[l.len() - 1].prefix));
        lemma_upsert_grows(from_listing(t), l.last(), cur);
    }
}

/// No beam of `s` has a prefix that holds the blank.
pub open spec fn no_blank(s: Seq<BeamView>) -> bool {
    forall|j: int| 0 <= j < s.len() ==> !(#[trigger] s[j].prefix).contains(spec_alphabet()[BLANK_IDX as int])
}

/// A timestep never puts the blank into a prefix.
pub proof fn lemma_next_beams_no_blank(
    cur: Seq<BeamView>,
    probs: Seq<LogSpaceF32>,
    width: nat,
    sum: spec_fn(LogSpaceF32, LogSpaceF32) -> LogSpaceF32,
    product: spec_fn(LogSpaceF32, LogSpaceF32) -> LogSpaceF32,
)
    requires
        prefixes_sorted(cur),
        no_blank(cur),
    ensures
        no_blank(next_beams(cur, probs, width, sum, product)),
{
    let blank = spec_alphabet()[BLANK_IDX as int];
    lemma_next_beams_prefixes(cur, probs, width, sum, product);
    let next = next_beams(cur, probs, width, sum, product);
    assert forall|j: int| 0 <= j < next.len() implies !(#[trigger] next[j].prefix).contains(blank) by {
        let p = next[j].prefix;
        assert(grows_from(cur, p));
        let i = choose|i: int|
            0 <= i < cur.len() && (p == #[trigger] cur[i].prefix || extends_by_symbol(p, cur[i].prefix));
        let q = cur[i].prefix;
        assert(!q.contains(blank));
        if p != q {
            let k = choose|k: int| 1 <= k < ALPHABET_LEN && p == q.push(#[trigger] spec_alphabet()[k]);
            lemma_alphabet_blank_first(k);
            if p.contains(blank) {
                let m = choose|m: int| 0 <= m < p.len() && p[m] == blank;
                if m < q.len() {
                    assert(q[m] == blank);
                }
            }
        }
    }
}

/// One timestep adds at most one symbol to a prefix, and never the blank:
/// every prefix kept after it is a prefix kept before it, or one of those
/// followed by one symbol of the alphabet other than the blank. No two beams
/// kept share a prefix; at most `width` are kept, and at least one when there
/// was one before and `width` is at least one.
pub proof fn lemma_next_beams_prefixes(
    cur: Seq<BeamView>,
    probs: Seq<LogSpaceF32>,
    width: nat,
    sum: spec_fn(LogSpaceF32, LogSpaceF32) -> LogSpaceF32,
    product: spec_fn(LogSpaceF32, LogSpaceF32) -> LogSpaceF32,
)
    requires
        prefixes_sorted(cur),
    ensures
        all_grow_from(next_beams(cur, probs, width, sum, product), cur),
        prefixes_sorted(next_beams(cur, probs, width, sum, product)),
        next_beams(cur, probs, width, sum, product).len() <= width,
        cur.len() > 0 && width >= 1 ==> next_beams(cur, probs, width, sum, product).len() > 0,
{
    let listing = sorted_desc(cur);
    lemma_sorted_desc(cur);
    assert forall|j: int| 0 <= j < listing.len() implies cur.contains(#[trigger] listing[j]) by {
        assert(listing.contains(listing[j]));
    }
    let e = Seq::<BeamView>::empty();
    lemma_timestep_update_grows(e, listing, probs, listing.len(), sum, product, cur);
    let candidates = timestep_update(e, listing, probs, listing.len(), sum, product);
    lemma_pruned_keeps_most_probable(candidates, width);
    let kept = pruned(candidates, width);
    assert forall|j: int| 0 <= j < kept.len() implies grows_from(cur, #[trigger] kept[j].prefix) by {
        assert(candidates.contains(kept[j]));
        let k = choose|k: int| 0 <= k < candidates.len() && candidates[k] == kept[j];
        assert(grows_from(cur, candidates[k].prefix));
    }
    lemma_from_listing_grows(kept, cur);
}

/// After the timesteps `steps`, every prefix has at most one symbol per
/// timestep and holds no blank; with `width` at least one there is a beam.
pub proof fn lemma_beams_after_prefixes(
    steps: Seq<Seq<LogSpaceF32>>,
    width: nat,
    sum: spec_fn(LogSpaceF32, LogSpaceF32) -> LogSpaceF32,
    product: spec_fn(LogSpaceF32, LogSpaceF32) -> LogSpaceF32,
)
    ensures
        prefixes_sorted(beams_after(steps, width, sum, product)),
        forall|j: int|
            0 <= j < beams_after(steps, width, sum, product).len() ==> {
                let p = #[trigger] beams_after(steps, width, sum, product)[j].prefix;
                p.len() <= steps.len() && !p.contains(spec_alphabet()[BLANK_IDX as int])
            },
        width >= 1 ==> beams_after(steps, width, sum, product).len() > 0,
    decreases steps.len(),
{
    let blank = spec_alphabet()[BLANK_IDX as int];
    if steps.len() > 0 {
        let prev = beams_after(steps.drop_last(), width, sum, product);
        lemma_beams_after_prefixes(steps.drop_last(), width, sum, product);
        lemma_next_beams_prefixes(prev, steps.last(), width, sum, product);
        lemma_next_beams_no_blank(prev, steps.last(), width, sum, product);
        let next = beams_after(steps, width, sum, product);
        assert forall|j: int| 0 <= j < next.len() implies {
            let p = #[trigger] next[j].prefix;
            p.len() <= steps.len() && !p.contains(blank)
        } by {
            let p = next[j].prefix;
            assert(grows_from(prev, p));
            let i = choose|i: int|
                0 <= i < prev.len() && (p == #[trigger] prev[i].prefix || extends_by_symbol(p, prev[i].prefix));
        }
    } else {
        assert(!seq![blank_beam_view()][0].prefix.contains(blank));
    }
}

/// Only the first symbol of the alphabet is the blank.
proof fn lemma_alphabet_blank_first(k: int)
    requires
        1 <= k < ALPHABET_LEN,
    ensures
        spec_alphabet()[k] != spec_alphabet()[BLANK_IDX as int],
{
    let a = spec_alphabet();
    assert(a[0] == '_');
    assert(forall|m: int| 1 <= m < 32 ==> a[m] != '_') by {
        assert(a[1] != '_' && a[2] != '_' && a[3] != '_' && a[4] != '_' && a[5] != '_');
        assert(a[6] != '_' && a[7] != '_' && a[8] != '_' && a[9] != '_' && a[10] != '_');
        assert(a[11] != '_' && a[12] != '_' && a[13] != '_' && a[14] != '_' && a[15] != '_');
        assert(a[16] != '_' && a[17] != '_' && a[18] != '_' && a[19] != '_' && a[20] != '_');
        assert(a[21] != '_' && a[22] != '_' && a[23] != '_' && a[24] != '_' && a[25] != '_');
        assert(a[26] != '_' && a[27] != '_' && a[28] != '_' && a[29] != '_' && a[30] != '_');
        assert(a[31] != '_');
    }
}

/// The position of `c` in the alphabet, or -1.
pub open spec fn alphabet_position(c: char) -> int {
    if c == '_' {
        0
    } else if c == '{' {
        1
    } else if c == '}' {
        2
    } else if c == '?' {
        3
    } else if c == ' ' {
        4
    } else if c == 'e' {
        5
    } else if c == 't' {
        6
    } else if c == 'a' {
        7
    } else if c == 'o' {
        8
    } else if c == 'n' {
        9
    } else if c == 'i' {
        10
    } else if c == 'h' {
        11
    } else if c == 's' {
        12
    } else if c == 'r' {
        13
    } else if c == 'd' {
        14
    } else if c == 'l' {
        15
    } else if c == 'u' {
        16
    } else if c == 'm' {
        17
    } else if c == 'w' {
        18
    } else if c == 'c' {
        19
    } else if c == 'f' {
        20
    } else if c == 'g' {
        21
    } else if c == 'y' {
        22
    } else if c == 'p' {
        23
    } else if c == 'b' {
        24
    } else if c == 'v' {
        25
    } else if c == 'k' {
        26
    } else if c == '\'' {
        27
    } else if c == 'x' {
        28
    } else if c == 'j' {
        29
    } else if c == 'q' {
        30
    } else if c == 'z' {
        31
    } else {
        -1
    }
}

/// Each symbol of the alphabet stands at one position only.
pub proof fn lemma_alphabet_distinct(j: int, k: int)
    requires
        0 <= j < ALPHABET_LEN,
        0 <= k < ALPHABET_LEN,
        j != k,
    ensures
        spec_alphabet()[j] != spec_alphabet()[k],
{
    let a = spec_alphabet();
    assert forall|k: int| 0 <= k < 32 implies alphabet_position(#[trigger] a[k]) == k by {
        if k == 0 {
            assert(a[0] == '_');
        } else if k == 1 {
            assert(a[1] == '{');
        } else if k == 2 {
            assert(a[2] == '}');
        } else if k == 3 {
            assert(a[3] == '?');
        } else if k == 4 {
            assert(a[4] == ' ');
        } else if k == 5 {
            assert(a[5] == 'e');
        } else if k == 6 {
            assert(a[6] == 't');
        } else if k == 7 {
            assert(a[7] == 'a');
        } else if k == 8 {
            assert(a[8] == 'o');
        } else if k == 9 {
            assert(a[9] == 'n');
        } else if k == 10 {
            assert(a[10] == 'i');
        } else if k == 11 {
            assert(a[11] == 'h');
        } else if k == 12 {
            assert(a[12] == 's');
        } else if k == 13 {
            assert(a[13] == 'r');
        } else if k == 14 {
            assert(a[14] == 'd');
        } else if k == 15 {
            assert(a[15] == 'l');
        } else if k == 16 {
            assert(a[16] == 'u');
        } else if k == 17 {
            assert(a[17] == 'm');
        } else if k == 18 {
            assert(a[18] == 'w');
        } else if k == 19 {
            assert(a[19] == 'c');
        } else if k == 20 {
            assert(a[20] == 'f');
        } else if k == 21 {
            assert(a[21] == 'g');
        } else if k == 22 {
            assert(a[22] == 'y');
        } else if k == 23 {
            assert(a[23] == 'p');
        } else if k == 24 {
            assert(a[24] == 'b');
        } else if k == 25 {
            assert(a[25] == 'v');
        } else if k == 26 {
            assert(a[26] == 'k');
        } else if k == 27 {
            assert(a[27] == '\'');
        } else if k == 28 {
            assert(a[28] == 'x');
        } else if k == 29 {
            assert(a[29] == 'j');
        } else if k == 30 {
            assert(a[30] == 'q');
        } else if k == 31 {
            assert(a[31] == 'z');
        }
    }
    assert(alphabet_position(a[j]) == j);
    assert(alphabet_position(a[k]) == k);
}

proof fn lemma_lookup_contains(s: Seq<BeamView>, p: Seq<char>)
    ensures
        lookup(s, p) matches Some(b) ==> s.contains(b),
    decreases s.len(),
{
    if s.len() > 0 {
        if s[0].prefix == p {
            assert(s[0] == s[0]);
        } else {
            lemma_lookup_contains(s.drop_first(), p);
            if lookup(s, p) is Some {
                let b = lookup(s, p)->0;
                let k = choose|k: int| 0 <= k < s.drop_first().len() && s.drop_first()[k] == b;
                assert(s[k + 1] == b);
            }
        }
    }
}

proof fn lemma_upsert_len_exact(s: Seq<BeamView>, b: BeamView)
    requires
        prefixes_sorted(s),
    ensures
        upsert(s, b).len() == s.len() + if lookup(s, b.prefix) is Some { 0int } else { 1int },
    decreases s.len(),
{
    if s.len() > 0 && s[0].prefix != b.prefix {
        let t = s.drop_first();
        assert forall|i: int, j: int| 0 <= i < j < t.len() implies prefix_lt(
            #[trigger] t[i].prefix,
            #[trigger] t[j].prefix,
        ) by {
            assert(t[i] == s[i + 1] && t[j] == s[j + 1]);
        }
        if prefix_lt(b.prefix, s[0].prefix) {
            lemma_lookup_contains(t, b.prefix);
            lemma_lookup_prefix(t, b.prefix);
            if lookup(t, b.prefix) is Some {
                let x = lookup(t, b.prefix)->0;
                let k = choose|k: int| 0 <= k < t.len() && t[k] == x;
                assert(prefix_lt(s[0].prefix, s[k + 1].prefix));
                crate::decoder::beam::lemma_prefix_lt_transitive(b.prefix, s[0].prefix, b.prefix);
                crate::decoder::beam::lemma_prefix_lt_irreflexive(b.prefix);
            }
        } else {
            lemma_upsert_len_exact(t, b);
        }
    }
}

/// What one symbol does to the number of beams: never fewer; one more when
/// the prefix it adds to is new (and, for a repeat, the prefix it merges into
/// is there).
proof fn lemma_symbol_update_len(
    acc: Seq<BeamView>,
    beam: BeamView,
    idx: int,
    prob: LogSpaceF32,
    sum: spec_fn(LogSpaceF32, LogSpaceF32) -> LogSpaceF32,
    product: spec_fn(LogSpaceF32, LogSpaceF32) -> LogSpaceF32,
)
    requires
        prefixes_sorted(acc),
        0 <= idx < ALPHABET_LEN,
    ensures
        prefixes_sorted(symbol_update(acc, beam, idx, prob, sum, product)),
        symbol_update(acc, beam, idx, prob, sum, product).len() >= acc.len(),
        idx == BLANK_IDX && lookup(acc, beam.prefix) is None ==> symbol_update(
            acc,
            beam,
            idx,
            prob,
            sum,
            product,
        ).len() == acc.len() + 1,
        idx != BLANK_IDX && lookup(acc, beam.prefix) is Some && lookup(
            acc,
            beam.prefix.push(spec_alphabet()[idx]),
        ) is None ==> symbol_update(acc, beam, idx, prob, sum, product).len() == acc.len() + 1,
{
    let p = beam.prefix;
    let s = spec_alphabet()[idx];
    let ext = p.push(s);
    assert(ext.len() == p.len() + 1);
    assert(p != ext);
    lemma_lookup_prefix(acc, p);
    lemma_lookup_prefix(acc, ext);
    if idx == BLANK_IDX {
        let b = beam_add_with_blank(beam_or_new(acc, p), product(beam.total, prob), sum);
        lemma_upsert_lookup(acc, b, p);
        lemma_upsert_len_exact(acc, b);
    } else if p.len() > 0 && p.last() == s {
        let b1 = beam_add_without_blank(beam_or_new(acc, ext), product(beam.with_blank, prob), sum);
        lemma_upsert_lookup(acc, b1, p);
        lemma_upsert_len_exact(acc, b1);
        let acc1 = upsert(acc, b1);
        lemma_lookup_prefix(acc1, p);
        let b2 = beam_add_without_blank(beam_or_new(acc1, p), product(beam.without_blank, prob), sum);
        lemma_upsert_lookup(acc1, b2, p);
        lemma_upsert_len_exact(acc1, b2);
    } else {
        let b = beam_add_without_blank(beam_or_new(acc, ext), product(beam.total, prob), sum);
        lemma_upsert_lookup(acc, b, p);
        lemma_upsert_len_exact(acc, b);
    }
}

/// The prefixes that the first `n` symbols give `p`: `p` itself (from the
/// blank) and `p` followed by each of symbols `1..n`.
pub open spec fn first_keys(p: Seq<char>, n: nat, q: Seq<char>) -> bool {
    ||| n >= 1 && q == p
    ||| exists|j: int| 1 <= j < n && q == p.push(#[trigger] spec_alphabet()[j])
}

proof fn lemma_beam_update_fresh(
    beam: BeamView,
    probs: Seq<LogSpaceF32>,
    n: nat,
    sum: spec_fn(LogSpaceF32, LogSpaceF32) -> LogSpaceF32,
    product: spec_fn(LogSpaceF32, LogSpaceF32) -> LogSpaceF32,
)
    requires
        n <= ALPHABET_LEN,
    ensures
        prefixes_sorted(beam_update(Seq::empty(), beam, probs, n, sum, product)),
        beam_update(Seq::empty(), beam, probs, n, sum, product).len() == n,
        forall|q: Seq<char>|
            #[trigger] lookup(beam_update(Seq::empty(), beam, probs, n, sum, product), q) is Some
                <==> first_keys(beam.prefix, n, q),
    decreases n,
{
    let e = Seq::<BeamView>::empty();
    if n > 0 {
        let m = (n - 1) as nat;
        lemma_beam_update_fresh(beam, probs, m, sum, product);
        let prev = beam_update(e, beam, probs, m, sum, product);
        let cur = beam_update(e, beam, probs, n, sum, product);
        let p = beam.prefix;
        let s = spec_alphabet()[m as int];
        let ext = p.push(s);
        assert(ext.len() == p.len() + 1);
        if m >= 1 {
            assert(first_keys(p, m, p));
            if first_keys(p, m, ext) {
                let j = choose|j: int| 1 <= j < m && ext == p.push(#[trigger] spec_alphabet()[j]);
                assert(ext[p.len() as int] == spec_alphabet()[j]);
                lemma_alphabet_distinct(j, m as int);
            }
        }
        lemma_symbol_update_len(prev, beam, m as int, probs[m as int], sum, product);
        assert forall|q: Seq<char>| #[trigger] lookup(cur, q) is Some <==> first_keys(p, n, q) by {
            lemma_symbol_update_lookup(prev, beam, m as int, probs[m as int], sum, product, q);
            if first_keys(p, n, q) && q != p && q != ext {
                let j = choose|j: int| 1 <= j < n && q == p.push(#[trigger] spec_alphabet()[j]);
                assert(j != m);
                assert(first_keys(p, m, q));
            }
            if q == ext && m >= 1 {
                assert(q == p.push(spec_alphabet()[m as int]));
            }
        }
    }
}

proof fn lemma_beam_update_len(
    acc: Seq<BeamView>,
    beam: BeamView,
    probs: Seq<LogSpaceF32>,
    n: nat,
    sum: spec_fn(LogSpaceF32, LogSpaceF32) -> LogSpaceF32,
    product: spec_fn(LogSpaceF32, LogSpaceF32) -> LogSpaceF32,
)
    requires
        prefixes_sorted(acc),
        n <= ALPHABET_LEN,
    ensures
        prefixes_sorted(beam_update(acc, beam, probs, n, sum, product)),
        beam_update(acc, beam, probs, n, sum, product).len() >= acc.len(),
    decreases n,
{
    if n > 0 {
        lemma_beam_update_len(acc, beam, probs, (n - 1) as nat, sum, product);
        let prev = beam_update(acc, beam, probs, (n - 1) as nat, sum, product);
        lemma_symbol_update_len(prev, beam, n - 1, probs[n - 1], sum, product);
    }
}

proof fn lemma_timestep_update_len(
    listing: Seq<BeamView>,
    probs: Seq<LogSpaceF32>,
    n: nat,
    sum: spec_fn(LogSpaceF32, LogSpaceF32) -> LogSpaceF32,
    product: spec_fn(LogSpaceF32, LogSpaceF32) -> LogSpaceF32,
)
    requires
        1 <= n <= listing.len(),
    ensures
        prefixes_sorted(timestep_update(Seq::empty(), listing, probs, n, sum, product)),
        timestep_update(Seq::empty(), listing, probs, n, sum, product).len() >= ALPHABET_LEN,
    decreases n,
{
    let e = Seq::<BeamView>::empty();
    if n == 1 {
        assert(timestep_update(e, listing, probs, 0, sum, product) == e);
        lemma_beam_update_fresh(listing[0], probs, ALPHABET_LEN as nat, sum, product);
    } else {
        lemma_timestep_update_len(listing, probs, (n - 1) as nat, sum, product);
        let prev = timestep_update(e, listing, probs, (n - 1) as nat, sum, product);
        lemma_beam_update_len(prev, listing[n - 1], probs, ALPHABET_LEN as nat, sum, product);
    }
}

proof fn lemma_from_listing_len(l: Seq<BeamView>)
    requires
        forall|i: int, j: int| 0 <= i < j < l.len() ==> #[trigger] l[i].prefix != #[trigger] l[j].prefix,
    ensures
        prefixes_sorted(from_listing(l)),
        from_listing(l).len() == l.len(),
        forall|x: BeamView| #[trigger] from_listing(l).contains(x) ==> l.contains(x),
    decreases l.len(),
{
    if l.len() > 0 {
        let t = l.drop_last();
        assert forall|i: int, j: int| 0 <= i < j < t.len() implies #[trigger] t[i].prefix != #[trigger] t[j].prefix by {
            assert(t[i] == l[i] && t[j] == l[j]);
        }
        lemma_from_listing_len(t);
        let f = from_listing(t);
        let b = l[l.len() - 1];
        lemma_lookup_contains(f, b.prefix);
        lemma_lookup_prefix(f, b.prefix);
        if lookup(f, b.prefix) is Some {
            let x = lookup(f, b.prefix)->0;
            assert(t.contains(x));
            let k = choose|k: int| 0 <= k < t.len() && t[k] == x;
            assert(l[k] == x);
        }
        lemma_upsert_len_exact(f, b);
        lemma_upsert_lookup(f, b, b.prefix);
        let u = upsert(f, b);
        assert forall|x: BeamView| #[trigger] u.contains(x) implies l.contains(x) by {
            let k = choose|k: int| 0 <= k < u.len() && u[k] == x;
            if u[k] != b {
                assert(f.contains(u[k]));
                let m = choose|m: int| 0 <= m < t.len() && t[m] == x;
                assert(l[m] == x);
            } else {
                assert(l[l.len() - 1] == x);
            }
        }
    }
}

/// Decoding with beam width `width` keeps the `width` most probable beams
/// after a timestep, or all candidates when there are fewer; every beam
/// spawns a candidate for the blank and for each of the 31 other symbols, so
/// at least `width` beams, or 32 when `width` is larger, are kept.
pub proof fn lemma_next_beams_count(
    cur: Seq<BeamView>,
    probs: Seq<LogSpaceF32>,
    width: nat,
    sum: spec_fn(LogSpaceF32, LogSpaceF32) -> LogSpaceF32,
    product: spec_fn(LogSpaceF32, LogSpaceF32) -> LogSpaceF32,
)
    requires
        prefixes_sorted(cur),
        cur.len() > 0,
    ensures
        next_beams(cur, probs, width, sum, product).len() <= width,
        next_beams(cur, probs, width, sum, product).len() >= if width < ALPHABET_LEN {
            width
        } else {
            ALPHABET_LEN as nat
        },
{
    let listing = sorted_desc(cur);
    lemma_sorted_desc(cur);
    let e = Seq::<BeamView>::empty();
    lemma_timestep_update_len(listing, probs, listing.len(), sum, product);
    let candidates = timestep_update(e, listing, probs, listing.len(), sum, product);
    lemma_pruned_keeps_most_probable(candidates, width);
    lemma_sorted_desc(candidates);
    let sd = sorted_desc(candidates);
    let kept = pruned(candidates, width);
    assert forall|i: int, j: int| 0 <= i < j < kept.len() implies #[trigger] kept[i].prefix != #[trigger] kept[j].prefix by {
        assert(kept[i] == sd[i] && kept[j] == sd[j]);
        assert(crate::decoder::beam::beam_lt(sd[j], sd[i]));
        assert(candidates.contains(kept[i]));
        assert(candidates.contains(kept[j]));
        let a = choose|a: int| 0 <= a < candidates.len() && candidates[a] == kept[i];
        let b = choose|b: int| 0 <= b < candidates.len() && candidates[b] == kept[j];
        crate::decoder::beam::lemma_prefix_lt_irreflexive(kept[i].prefix);
        crate::decoder::beam::lemma_beam_lt_total(sd[j], sd[i]);
        if kept[i].prefix == kept[j].prefix {
            if a < b {
                assert(prefix_lt(candidates[a].prefix, candidates[b].prefix));
            } else if b < a {
                assert(prefix_lt(candidates[b].prefix, candidates[a].prefix));
            }
        }
    }
    lemma_from_listing_len(kept);
}

/// After at least one timestep with beam width `width`, between `width`
/// (or 32, when `width` is larger) and `width` beams are kept.
pub proof fn lemma_beams_after_count(
    steps: Seq<Seq<LogSpaceF32>>,
    width: nat,
    sum: spec_fn(LogSpaceF32, LogSpaceF32) -> LogSpaceF32,
    product: spec_fn(LogSpaceF32, LogSpaceF32) -> LogSpaceF32,
)
    requires
        steps.len() > 0,
        width >= 1,
    ensures
        beams_after(steps, width, sum, product).len() <= width,
        beams_after(steps, width, sum, product).len() >= if width < ALPHABET_LEN {
            width
        } else {
            ALPHABET_LEN as nat
        },
{
    let prev = beams_after(steps.drop_last(), width, sum, product);
    lemma_beams_after_prefixes(steps.drop_last(), width, sum, product);
    lemma_next_beams_count(prev, steps.last(), width, sum, product);
}

} // verus!
