//! The tokenizer model: the learned merge rules and vocabulary, and the
//! train / encode / decode operations over them.

use crate::merge::lemma_merge_len_le;
use crate::merge::merge;
use crate::merge::spec_merge;
use crate::pairs::frequent_pair;
use crate::pairs::is_top_pair;
use crate::pairs::lemma_count_pos_occurs;
use crate::pairs::lemma_top_pair_is;
use crate::pairs::pair_count;
use crate::pairs::top_pair;
use crate::text::bytes_into_string;
use crate::text::text_bytes;
use vstd::prelude::*;
use vstd::utf8::decode_utf8;
use vstd::utf8::encode_utf8;
use vstd::utf8::valid_utf8;

verus! {

/// A trained (or loaded) byte-pair-encoding model.
///
/// `merges` lists the learned rules in training order: the rule at index
/// `i` rewrites the adjacent pair `merges[i]` into the symbol `256 + i`.
/// `vocab` maps every known symbol id to the raw bytes it expands to:
/// entry `id < 256` is the single byte `id`, and entry `256 + i` is the
/// concatenation of the entries of the pair that rule `i` merges.
/// `num_merges` counts the merges actually performed, which stays below
/// `vocab_size - 256` when training stopped early.
pub struct BasicTokenizer {
    pub trained: bool,
    pub vocab_size: u32,
    pub num_merges: u32,
    pub merges: Vec<(u32, u32)>,
    pub vocab: Vec<Vec<u8>>,
}

/// Training was asked for a vocabulary too small to hold the 256 base
/// symbols.
#[derive(Debug, PartialEq, Eq, Structural, Clone, Copy)]
pub struct ConfigError;

/// Why a symbol sequence could not be decoded back into text.
#[derive(Debug, PartialEq, Eq, Structural, Clone, Copy)]
pub enum DecodeError {
    /// The sequence holds this id, and the vocabulary does not.
    UnknownSymbol(u32),
    /// The expanded bytes are not a valid UTF-8 encoding.
    InvalidUtf8,
}

/// The base-alphabet symbol sequence of a byte sequence: one symbol per
/// byte, numerically equal to it.
pub open spec fn byte_ids(bytes: Seq<u8>) -> Seq<u32> {
    bytes.map_values(|b: u8| b as u32)
}

/// Every symbol of `s` lies below `bound`.
pub open spec fn in_range(s: Seq<u32>, bound: int) -> bool {
    forall|i: int| 0 <= i < s.len() ==> #[trigger] s[i] < bound
}

/// Each rule only merges symbols that already exist when it is learned,
/// and every id the table creates fits in a `u32`.
pub open spec fn valid_rules(merges: Seq<(u32, u32)>) -> bool {
    &&& merges.len() + 256 <= 0x1_0000_0000
    &&& forall|i: int|
        0 <= i < merges.len() ==> (#[trigger] merges[i]).0 < 256 + i && merges[i].1 < 256 + i
}

/// The raw bytes a symbol id stands for: ids below 256 are single bytes,
/// and a derived id expands to the expansions of the pair its rule merges,
/// concatenated.
pub open spec fn expand(merges: Seq<(u32, u32)>, id: u32) -> Seq<u8>
    decreases id,
{
    if id < 256 {
        seq![id as u8]
    } else if id - 256 < merges.len() {
        let p = merges[id - 256];
        if p.0 < id && p.1 < id {
            expand(merges, p.0) + expand(merges, p.1)
        } else {
            Seq::empty()
        }
    } else {
        Seq::empty()
    }
}

/// The raw bytes a whole symbol sequence stands for.
pub open spec fn expand_all(merges: Seq<(u32, u32)>, ids: Seq<u32>) -> Seq<u8>
    decreases ids.len(),
{
    if ids.len() == 0 {
        Seq::empty()
    } else {
        expand(merges, ids[0]) + expand_all(merges, ids.skip(1))
    }
}

impl BasicTokenizer {
    /// Well-formedness: the rule table is valid, the counters agree with
    /// it, and the vocabulary is exactly the expansion of every known id.
    pub open spec fn wf(self) -> bool {
        &&& valid_rules(self.merges@)
        &&& self.num_merges == self.merges@.len()
        &&& self.vocab@.len() == 256 + self.merges@.len()
        &&& 256 <= self.vocab_size
        &&& self.num_merges <= self.vocab_size - 256
        &&& forall|id: int|
            0 <= id < self.vocab@.len() ==> (#[trigger] self.vocab@[id])@ == expand(
                self.merges@,
                id as u32,
            )
    }
}

/// Appending a rule to the table leaves the expansion of the ids that
/// already existed unchanged.
pub proof fn lemma_expand_push(merges: Seq<(u32, u32)>, p: (u32, u32), id: u32)
    requires
        id < 256 + merges.len(),
    ensures
        expand(merges.push(p), id) == expand(merges, id),
    decreases id,
{
    if id >= 256 {
        let q = merges[id - 256];
        if q.0 < id && q.1 < id {
            lemma_expand_push(merges, p, q.0);
            lemma_expand_push(merges, p, q.1);
        }
    }
}

/// A known id always expands to at least one byte.
pub proof fn lemma_expand_nonempty(merges: Seq<(u32, u32)>, id: u32)
    requires
        valid_rules(merges),
        id < 256 + merges.len(),
    ensures
        expand(merges, id).len() >= 1,
    decreases id,
{
    if id >= 256 {
        let p = merges[id - 256];
        lemma_expand_nonempty(merges, p.0);
        lemma_expand_nonempty(merges, p.1);
    }
}

/// Expansion distributes over concatenation of symbol sequences.
pub proof fn lemma_expand_all_concat(merges: Seq<(u32, u32)>, s1: Seq<u32>, s2: Seq<u32>)
    ensures
        expand_all(merges, s1 + s2) == expand_all(merges, s1) + expand_all(merges, s2),
    decreases s1.len(),
{
    if s1.len() == 0 {
        assert(s1 + s2 =~= s2);
        assert(expand_all(merges, s1) + expand_all(merges, s2) =~= expand_all(merges, s2));
    } else {
        lemma_expand_all_concat(merges, s1.skip(1), s2);
        assert((s1 + s2).skip(1) =~= s1.skip(1) + s2);
        assert((s1 + s2)[0] == s1[0]);
        assert(expand(merges, s1[0]) + (expand_all(merges, s1.skip(1)) + expand_all(merges, s2))
            =~= (expand(merges, s1[0]) + expand_all(merges, s1.skip(1))) + expand_all(merges, s2));
    }
}

/// Appending one symbol appends its expansion.
pub proof fn lemma_expand_all_snoc(merges: Seq<(u32, u32)>, s: Seq<u32>, x: u32)
    ensures
        expand_all(merges, s.push(x)) == expand_all(merges, s) + expand(merges, x),
{
    assert(s.push(x) =~= s + seq![x]);
    lemma_expand_all_concat(merges, s, seq![x]);
    assert(seq![x].skip(1) =~= Seq::<u32>::empty());
    assert(expand_all(merges, Seq::<u32>::empty()) =~= Seq::<u8>::empty());
    assert(expand_all(merges, seq![x]) =~= expand(merges, x));
}

/// The base-alphabet sequence of a byte sequence expands back to exactly
/// those bytes.
pub proof fn lemma_expand_all_base(merges: Seq<(u32, u32)>, bytes: Seq<u8>)
    ensures
        expand_all(merges, byte_ids(bytes)) == bytes,
        in_range(byte_ids(bytes), 256),
    decreases bytes.len(),
{
    if bytes.len() > 0 {
        lemma_expand_all_base(merges, bytes.skip(1));
        assert(byte_ids(bytes).skip(1) =~= byte_ids(bytes.skip(1)));
        assert(byte_ids(bytes)[0] == bytes[0] as u32);
        assert(expand(merges, bytes[0] as u32) =~= seq![bytes[0]]);
        assert(seq![bytes[0]] + bytes.skip(1) =~= bytes);
    }
}

/// Rewriting a pair into a fresh symbol keeps every symbol below a bound
/// that the fresh symbol also respects.
pub proof fn lemma_merge_in_range(s: Seq<u32>, a: u32, b: u32, r: u32, bound: int)
    requires
        in_range(s, bound),
        r < bound,
    ensures
        in_range(spec_merge(s, a, b, r), bound),
    decreases s.len(),
{
    if s.len() >= 2 && s[0] == a && s[1] == b {
        assert(in_range(s.skip(2), bound));
        lemma_merge_in_range(s.skip(2), a, b, r, bound);
    } else if s.len() >= 1 {
        assert(in_range(s.skip(1), bound));
        lemma_merge_in_range(s.skip(1), a, b, r, bound);
    }
}

/// A merge pass that finds at least one occurrence shortens the sequence.
pub proof fn lemma_merge_shrinks(s: Seq<u32>, a: u32, b: u32, r: u32)
    requires
        pair_count(s, a, b) >= 1,
    ensures
        spec_merge(s, a, b, r).len() < s.len(),
    decreases s.len(),
{
    if s[0] == a && s[1] == b {
        lemma_merge_len_le(s.skip(2), a, b, r);
    } else {
        lemma_merge_shrinks(s.skip(1), a, b, r);
    }
}

/// A pair that occurs in an in-range sequence is itself in range.
pub proof fn lemma_occurring_pair_in_range(s: Seq<u32>, a: u32, b: u32, bound: int)
    requires
        pair_count(s, a, b) >= 1,
        in_range(s, bound),
    ensures
        a < bound,
        b < bound,
{
    let i = lemma_count_pos_occurs(s, a, b);
    assert(s[i] < bound);
    assert(s[i + 1] < bound);
}

/// Rewriting the pair of rule `i` into its symbol `256 + i` does not
/// change what the sequence expands to: that is exactly the vocabulary
/// invariant behind the rule's own entry.
pub proof fn lemma_merge_preserves_expansion(merges: Seq<(u32, u32)>, s: Seq<u32>, i: int)
    requires
        valid_rules(merges),
        0 <= i < merges.len(),
    ensures
        expand_all(merges, spec_merge(s, merges[i].0, merges[i].1, (256 + i) as u32))
            == expand_all(merges, s),
    decreases s.len(),
{
    let a = merges[i].0;
    let b = merges[i].1;
    let r = (256 + i) as u32;
    assert(expand(merges, r) == expand(merges, a) + expand(merges, b)) by {
        assert(r >= 256 && r - 256 == i);
        assert(merges[r - 256].0 < r && merges[r - 256].1 < r);
    }
    if s.len() >= 2 && s[0] == a && s[1] == b {
        lemma_merge_preserves_expansion(merges, s.skip(2), i);
        assert(spec_merge(s, a, b, r) == seq![r] + spec_merge(s.skip(2), a, b, r));
        assert(expand_all(merges, seq![r] + spec_merge(s.skip(2), a, b, r)) == expand(merges, r)
            + expand_all(merges, spec_merge(s.skip(2), a, b, r))) by {
            assert((seq![r] + spec_merge(s.skip(2), a, b, r))[0] == r);
            assert((seq![r] + spec_merge(s.skip(2), a, b, r)).skip(1) =~= spec_merge(
                s.skip(2),
                a,
                b,
                r,
            ));
        }
        assert(expand_all(merges, s.skip(1)) == expand(merges, b) + expand_all(
            merges,
            s.skip(2),
        )) by {
            assert(s.skip(1).len() >= 1);
            assert(s.skip(1)[0] == b);
            assert(s.skip(1).skip(1) =~= s.skip(2));
        }
        assert(expand_all(merges, s) == expand(merges, a) + (expand(merges, b) + expand_all(
            merges,
            s.skip(2),
        ))) by {
            assert(s[0] == a);
        }
        assert((expand(merges, a) + expand(merges, b)) + expand_all(merges, s.skip(2)) =~= expand(
            merges,
            a,
        ) + (expand(merges, b) + expand_all(merges, s.skip(2))));
    } else if s.len() >= 1 {
        lemma_merge_preserves_expansion(merges, s.skip(1), i);
        assert(spec_merge(s, a, b, r) == seq![s[0]] + spec_merge(s.skip(1), a, b, r));
        assert(expand_all(merges, seq![s[0]] + spec_merge(s.skip(1), a, b, r)) == expand(
            merges,
            s[0],
        ) + expand_all(merges, spec_merge(s.skip(1), a, b, r))) by {
            assert((seq![s[0]] + spec_merge(s.skip(1), a, b, r))[0] == s[0]);
            assert((seq![s[0]] + spec_merge(s.skip(1), a, b, r)).skip(1) =~= spec_merge(
                s.skip(1),
                a,
                b,
                r,
            ));
        }
    }
}

/// Rule `i` has an occurrence of its pair in `s`.
pub open spec fn rule_applies(merges: Seq<(u32, u32)>, s: Seq<u32>, i: int) -> bool {
    pair_count(s, merges[i].0, merges[i].1) >= 1
}

/// The smallest rule index at or after `i` whose pair occurs in `s`, or
/// `merges.len()` when none does. During encoding the earliest-learned
/// applicable rule always wins, regardless of current pair frequencies.
pub open spec fn first_rule_from(merges: Seq<(u32, u32)>, s: Seq<u32>, i: int) -> int
    decreases merges.len() - i,
{
    if i < 0 || i >= merges.len() {
        merges.len() as int
    } else if rule_applies(merges, s, i) {
        i
    } else {
        first_rule_from(merges, s, i + 1)
    }
}

/// The highest-priority applicable rule of the whole table.
pub open spec fn first_rule(merges: Seq<(u32, u32)>, s: Seq<u32>) -> int {
    first_rule_from(merges, s, 0)
}

/// What `first_rule_from` returns: the first applicable index, with
/// nothing applicable before it.
pub proof fn lemma_first_rule_from_spec(merges: Seq<(u32, u32)>, s: Seq<u32>, i: int)
    requires
        0 <= i <= merges.len(),
    ensures
        i <= first_rule_from(merges, s, i) <= merges.len(),
        first_rule_from(merges, s, i) < merges.len() ==> rule_applies(
            merges,
            s,
            first_rule_from(merges, s, i),
        ),
        forall|j: int| i <= j < first_rule_from(merges, s, i) ==> !rule_applies(merges, s, j),
    decreases merges.len() - i,
{
    if i < merges.len() && !rule_applies(merges, s, i) {
        lemma_first_rule_from_spec(merges, s, i + 1);
    }
}

/// A sequence too short to hold a pair has no applicable rule.
pub proof fn lemma_short_no_rule(merges: Seq<(u32, u32)>, s: Seq<u32>)
    requires
        s.len() < 2,
    ensures
        first_rule(merges, s) == merges.len(),
{
    lemma_first_rule_from_spec(merges, s, 0);
    if first_rule(merges, s) < merges.len() {
        assert(rule_applies(merges, s, first_rule(merges, s)));
    }
}

/// `fuel` bounds the number of merge passes; each pass applies the
/// highest-priority applicable rule, and encoding stops when no rule
/// applies.
pub open spec fn encode_rounds(merges: Seq<(u32, u32)>, s: Seq<u32>, fuel: nat) -> Seq<u32>
    decreases fuel,
{
    if fuel == 0 {
        s
    } else {
        let i = first_rule(merges, s);
        if i == merges.len() {
            s
        } else {
            encode_rounds(
                merges,
                spec_merge(s, merges[i].0, merges[i].1, (256 + i) as u32),
                (fuel - 1) as nat,
            )
        }
    }
}

/// The encoding of a symbol sequence: merge passes run until no rule in
/// the table applies. A sequence of length `n` shrinks at every pass, so
/// `n` passes always suffice.
pub open spec fn spec_encode(merges: Seq<(u32, u32)>, s: Seq<u32>) -> Seq<u32> {
    encode_rounds(merges, s, s.len())
}

/// Any fuel at least the sequence length yields the fixed point.
pub proof fn lemma_encode_rounds_fuel(merges: Seq<(u32, u32)>, s: Seq<u32>, fuel: nat)
    requires
        fuel >= s.len(),
    ensures
        encode_rounds(merges, s, fuel) == spec_encode(merges, s),
    decreases fuel,
{
    let i = first_rule(merges, s);
    lemma_first_rule_from_spec(merges, s, 0);
    if fuel == 0 {
        lemma_short_no_rule(merges, s);
    } else if i == merges.len() {
    } else {
        assert(rule_applies(merges, s, i));
        let s2 = spec_merge(s, merges[i].0, merges[i].1, (256 + i) as u32);
        lemma_merge_shrinks(s, merges[i].0, merges[i].1, (256 + i) as u32);
        assert(s.len() >= 2);
        lemma_encode_rounds_fuel(merges, s2, (fuel - 1) as nat);
        lemma_encode_rounds_fuel(merges, s2, (s.len() - 1) as nat);
    }
}

/// Unfolding one encoding pass: if rule `i` is the first applicable one,
/// the encoding of `s` is the encoding of `s` with that rule applied.
pub proof fn lemma_encode_step(merges: Seq<(u32, u32)>, s: Seq<u32>)
    requires
        first_rule(merges, s) < merges.len(),
    ensures
        spec_encode(merges, s) == spec_encode(
            merges,
            spec_merge(
                s,
                merges[first_rule(merges, s)].0,
                merges[first_rule(merges, s)].1,
                (256 + first_rule(merges, s)) as u32,
            ),
        ),
{
    let i = first_rule(merges, s);
    lemma_first_rule_from_spec(merges, s, 0);
    assert(rule_applies(merges, s, i));
    let s2 = spec_merge(s, merges[i].0, merges[i].1, (256 + i) as u32);
    lemma_merge_shrinks(s, merges[i].0, merges[i].1, (256 + i) as u32);
    assert(s.len() >= 2);
    lemma_encode_rounds_fuel(merges, s2, (s.len() - 1) as nat);
}

/// When no rule applies the encoding is the sequence itself.
pub proof fn lemma_encode_done(merges: Seq<(u32, u32)>, s: Seq<u32>)
    requires
        first_rule(merges, s) == merges.len(),
    ensures
        spec_encode(merges, s) == s,
{
}

/// Encoding never changes what the sequence expands to, and never creates
/// a symbol the table does not know.
pub proof fn lemma_encode_preserves(merges: Seq<(u32, u32)>, s: Seq<u32>)
    requires
        valid_rules(merges),
        in_range(s, 256 + merges.len() as int),
    ensures
        expand_all(merges, spec_encode(merges, s)) == expand_all(merges, s),
        in_range(spec_encode(merges, s), 256 + merges.len() as int),
    decreases s.len(),
{
    let i = first_rule(merges, s);
    lemma_first_rule_from_spec(merges, s, 0);
    if i == merges.len() {
        lemma_encode_done(merges, s);
    } else {
        let a = merges[i].0;
        let b = merges[i].1;
        let r = (256 + i) as u32;
        let s2 = spec_merge(s, a, b, r);
        assert(rule_applies(merges, s, i));
        lemma_merge_shrinks(s, a, b, r);
        lemma_merge_in_range(s, a, b, r, 256 + merges.len() as int);
        lemma_merge_preserves_expansion(merges, s, i);
        lemma_encode_step(merges, s);
        lemma_encode_preserves(merges, s2);
    }
}

/// The byte-level round trip: encoding any byte sequence with a valid
/// rule table yields symbols the table knows, whose expansion — which is
/// what decoding computes — is exactly the original bytes.
pub proof fn lemma_round_trip(merges: Seq<(u32, u32)>, bytes: Seq<u8>)
    requires
        valid_rules(merges),
    ensures
        in_range(spec_encode(merges, byte_ids(bytes)), 256 + merges.len() as int),
        expand_all(merges, spec_encode(merges, byte_ids(bytes))) == bytes,
{
    lemma_expand_all_base(merges, bytes);
    assert(in_range(byte_ids(bytes), 256 + merges.len() as int));
    lemma_encode_preserves(merges, byte_ids(bytes));
}

/// The text-level round trip: for any character sequence, the encoded
/// symbols expand to bytes that are valid UTF-8 and decode back to
/// exactly those characters — so `decode(encode(text))` returns the text.
pub proof fn lemma_text_round_trip(merges: Seq<(u32, u32)>, chars: Seq<char>)
    requires
        valid_rules(merges),
    ensures
        ({
            let ids = spec_encode(merges, byte_ids(encode_utf8(chars)));
            &&& in_range(ids, 256 + merges.len() as int)
            &&& valid_utf8(expand_all(merges, ids))
            &&& decode_utf8(expand_all(merges, ids)) == chars
        }),
{
    lemma_round_trip(merges, encode_utf8(chars));
    vstd::utf8::encode_utf8_valid_utf8(chars);
    vstd::utf8::encode_utf8_decode_utf8(chars);
}

/// One training step: the most frequent pair of the working sequence is
/// merged into the next fresh symbol and recorded; training ends when the
/// budget is spent or no pair is left.
pub open spec fn train_from(s: Seq<u32>, done: Seq<(u32, u32)>, budget: nat) -> Seq<(u32, u32)>
    decreases budget,
{
    if budget == 0 || s.len() < 2 {
        done
    } else {
        let p = top_pair(s);
        train_from(
            spec_merge(s, p.0, p.1, (256 + done.len()) as u32),
            done.push(p),
            (budget - 1) as nat,
        )
    }
}

/// The merge table learned from the base sequence `s` with at most
/// `budget` merges.
pub open spec fn spec_train(s: Seq<u32>, budget: nat) -> Seq<(u32, u32)> {
    train_from(s, Seq::empty(), budget)
}

/// Encoding is deterministic: any two results of encoding the same bytes
/// with the same rule table are equal.
pub proof fn lemma_encode_deterministic(
    merges: Seq<(u32, u32)>,
    bytes: Seq<u8>,
    r1: Seq<u32>,
    r2: Seq<u32>,
)
    requires
        r1 == spec_encode(merges, byte_ids(bytes)),
        r2 == spec_encode(merges, byte_ids(bytes)),
    ensures
        r1 == r2,
{
}

/// Training is deterministic: any two rule tables learned from the same
/// bytes with the same merge budget are equal.
pub proof fn lemma_train_deterministic(
    bytes: Seq<u8>,
    budget: nat,
    r1: Seq<(u32, u32)>,
    r2: Seq<(u32, u32)>,
)
    requires
        r1 == spec_train(byte_ids(bytes), budget),
        r2 == spec_train(byte_ids(bytes), budget),
    ensures
        r1 == r2,
{
}

/// Training with a budget of zero merges learns nothing: the rule table
/// is empty and the vocabulary is the 256-entry identity mapping, whatever
/// the text was.
pub proof fn lemma_trivial_training(m: BasicTokenizer, s: Seq<u32>)
    requires
        m.wf(),
        m.merges@ == spec_train(s, 0),
    ensures
        m.num_merges == 0,
        m.merges@.len() == 0,
        m.vocab@.len() == 256,
        forall|id: int| 0 <= id < 256 ==> (#[trigger] m.vocab@[id])@ == seq![id as u8],
{
    assert(spec_train(s, 0) == Seq::<(u32, u32)>::empty());
    assert forall|id: int| 0 <= id < 256 implies (#[trigger] m.vocab@[id])@ == seq![
        id as u8,
    ] by {
        assert(m.vocab@[id]@ == expand(m.merges@, id as u32));
    }
}

/// Converts raw bytes into the base-alphabet symbol sequence.
fn bytes_to_ids(bytes: &Vec<u8>) -> (ids: Vec<u32>)
    ensures
        ids@ == byte_ids(bytes@),
{
    let mut ids: Vec<u32> = Vec::new();
    let mut i: usize = 0;
    while i < bytes.len()
        invariant
            i <= bytes.len(),
            ids@ == byte_ids(bytes@).take(i as int),
        decreases bytes.len() - i,
    {
        ids.push(bytes[i] as u32);
        proof {
            assert(byte_ids(bytes@).take(i + 1) =~= byte_ids(bytes@).take(i as int).push(
                bytes@[i as int] as u32,
            ));
        }
        i = i + 1;
    }
    proof {
        assert(byte_ids(bytes@).take(bytes@.len() as int) =~= byte_ids(bytes@));
    }
    ids
}

/// Appends the bytes of `src` to `dst`.
pub(crate) fn append_bytes(dst: &mut Vec<u8>, src: &Vec<u8>)
    ensures
        final(dst)@ == old(dst)@ + src@,
{
    let mut j: usize = 0;
    proof {
        assert(dst@ + src@.take(0) =~= dst@);
    }
    while j < src.len()
        invariant
            j <= src.len(),
            dst@ == old(dst)@ + src@.take(j as int),
        decreases src.len() - j,
    {
        dst.push(src[j]);
        proof {
            assert(old(dst)@ + src@.take(j + 1) =~= (old(dst)@ + src@.take(j as int)).push(
                src@[j as int],
            ));
        }
        j = j + 1;
    }
    proof {
        assert(old(dst)@ + src@.take(src@.len() as int) =~= old(dst)@ + src@);
    }
}

/// Compares two byte vectors for equality of contents.
fn bytes_eq(x: &Vec<u8>, y: &Vec<u8>) -> (r: bool)
    ensures
        r == (x@ == y@),
{
    if x.len() != y.len() {
        return false;
    }
    let mut j: usize = 0;
    while j < x.len()
        invariant
            j <= x.len(),
            x@.len() == y@.len(),
            forall|k: int| 0 <= k < j ==> x@[k] == y@[k],
        decreases x.len() - j,
    {
        if x[j] != y[j] {
            return false;
        }
        j = j + 1;
    }
    proof {
        assert(x@ =~= y@);
    }
    true
}

impl BasicTokenizer {
    /// Learns a model from `text`: repeatedly counts adjacent pairs of the
    /// working sequence, merges the most frequent pair (ties towards the
    /// lexicographically smallest) into the next fresh symbol, and records
    /// the rule and its vocabulary entry, until `vocab_size - 256` merges
    /// are done or no pair is left. Rejects a `vocab_size` below 256.
    pub fn train(text: &String, vocab_size: u32) -> (r: Result<BasicTokenizer, ConfigError>)
        ensures
            r is Ok <==> vocab_size >= 256,
            r matches Ok(m) ==> {
                &&& m.wf()
                &&& m.trained
                &&& m.vocab_size == vocab_size
                &&& m.num_merges == m.merges@.len()
                &&& m.merges@ == spec_train(
                    byte_ids(encode_utf8(text@)),
                    (vocab_size - 256) as nat,
                )
            },
    {
        if vocab_size < 256 {
            return Err(ConfigError);
        }
        let num_target = vocab_size - 256;
        let bytes = text_bytes(text);
        let ghost base = byte_ids(bytes@);
        let mut ids = bytes_to_ids(&bytes);
        let mut merges: Vec<(u32, u32)> = Vec::new();
        let mut vocab: Vec<Vec<u8>> = Vec::new();
        let mut id0: u32 = 0;
        while id0 < 256
            invariant
                id0 <= 256,
                vocab@.len() == id0,
                forall|k: int| 0 <= k < id0 ==> (#[trigger] vocab@[k])@ == seq![k as u8],
            decreases 256 - id0,
        {
            let mut entry: Vec<u8> = Vec::new();
            entry.push(id0 as u8);
            proof {
                assert(entry@ =~= seq![id0 as u8]);
            }
            vocab.push(entry);
            id0 = id0 + 1;
        }
        proof {
            lemma_expand_all_base(merges@, bytes@);
            assert(train_from(ids@, merges@, num_target as nat) == spec_train(
                base,
                num_target as nat,
            )) by {
                assert(merges@ =~= Seq::<(u32, u32)>::empty());
            }
        }
        let mut step: u32 = 0;
        while step < num_target
            invariant
                step <= num_target,
                num_target == vocab_size - 256,
                256 <= vocab_size,
                merges@.len() == step,
                valid_rules(merges@),
                vocab@.len() == 256 + step,
                forall|id: int|
                    0 <= id < vocab@.len() ==> (#[trigger] vocab@[id])@ == expand(
                        merges@,
                        id as u32,
                    ),
                in_range(ids@, 256 + step as int),
                spec_train(base, num_target as nat) == train_from(
                    ids@,
                    merges@,
                    (num_target - step) as nat,
                ),
            ensures
                step <= num_target,
                merges@.len() == step,
                valid_rules(merges@),
                vocab@.len() == 256 + step,
                forall|id: int|
                    0 <= id < vocab@.len() ==> (#[trigger] vocab@[id])@ == expand(
                        merges@,
                        id as u32,
                    ),
                spec_train(base, num_target as nat) == merges@,
            decreases num_target - step,
        {
            match frequent_pair(&ids) {
                None => {
                    proof {
                        assert(ids@.len() < 2);
                        assert(train_from(ids@, merges@, (num_target - step) as nat) == merges@);
                    }
                    break ;
                },
                Some(t) => {
                    let a = t.0;
                    let b = t.1;
                    let ghost old_ids = ids@;
                    let ghost old_merges = merges@;
                    proof {
                        assert(is_top_pair(old_ids, a, b));
                        lemma_top_pair_is(old_ids, a, b);
                        lemma_occurring_pair_in_range(old_ids, a, b, 256 + step as int);
                    }
                    let new_id: u32 = 256 + step;
                    let newids = merge(&ids, &(a, b), &new_id);
                    ids = newids;
                    let mut entry: Vec<u8> = Vec::new();
                    append_bytes(&mut entry, &vocab[a as usize]);
                    append_bytes(&mut entry, &vocab[b as usize]);
                    merges.push((a, b));
                    vocab.push(entry);
                    proof {
                        assert(merges@ =~= old_merges.push((a, b)));
                        assert forall|id: int| 0 <= id < vocab@.len() implies (
                        #[trigger] vocab@[id])@ == expand(merges@, id as u32) by {
                            if id < 256 + step {
                                lemma_expand_push(old_merges, (a, b), id as u32);
                            } else {
                                assert(id == 256 + step);
                                lemma_expand_push(old_merges, (a, b), a);
                                lemma_expand_push(old_merges, (a, b), b);
                                assert(merges@[id - 256] == (a, b));
                                assert(expand(merges@, id as u32) == expand(merges@, a) + expand(
                                    merges@,
                                    b,
                                ));
                                assert(vocab@[id]@ == vocab@[a as int]@ + vocab@[b as int]@);
                            }
                        }
                        lemma_merge_in_range(old_ids, a, b, new_id, 256 + (step + 1) as int);
                        assert(train_from(old_ids, old_merges, (num_target - step) as nat)
                            == train_from(ids@, merges@, (num_target - (step + 1)) as nat)) by {
                            assert(old_ids.len() >= 2);
                            assert(top_pair(old_ids) == (a, b));
                            assert((256 + old_merges.len()) as u32 == new_id);
                        }
                    }
                    step = step + 1;
                },
            }
        }
        Ok(
            BasicTokenizer {
                trained: true,
                vocab_size,
                num_merges: step,
                merges,
                vocab,
            },
        )
    }

    /// The index of the highest-priority (earliest-learned) rule whose
    /// pair occurs in `ids`, if any rule applies at all.
    fn find_rule(&self, ids: &Vec<u32>) -> (r: Option<usize>)
        ensures
            r matches Some(i) ==> i == first_rule(self.merges@, ids@) && i < self.merges@.len(),
            r is None ==> first_rule(self.merges@, ids@) == self.merges@.len(),
    {
        let mut i: usize = 0;
        while i < self.merges.len()
            invariant
                i <= self.merges@.len(),
                first_rule(self.merges@, ids@) == first_rule_from(self.merges@, ids@, i as int),
            decreases self.merges@.len() - i,
        {
            let p = self.merges[i];
            let n = crate::pairs::count_pair(ids, p.0, p.1);
            if n > 0 {
                proof {
                    assert(rule_applies(self.merges@, ids@, i as int));
                }
                return Some(i);
            }
            proof {
                assert(!rule_applies(self.merges@, ids@, i as int));
            }
            i = i + 1;
        }
        None
    }

    /// Encodes `text` into a symbol sequence: starting from the raw UTF-8
    /// bytes, the earliest-learned rule whose pair occurs is applied, over
    /// and over, until no rule in the table applies.
    pub fn encode(&self, text: &String) -> (ids: Vec<u32>)
        requires
            self.wf(),
        ensures
            ids@ == spec_encode(self.merges@, byte_ids(encode_utf8(text@))),
            in_range(ids@, 256 + self.merges@.len() as int),
            expand_all(self.merges@, ids@) == encode_utf8(text@),
    {
        let bytes = text_bytes(text);
        let ghost base = byte_ids(bytes@);
        let mut ids = bytes_to_ids(&bytes);
        proof {
            lemma_expand_all_base(self.merges@, bytes@);
            assert(in_range(ids@, 256 + self.merges@.len() as int));
        }
        loop
            invariant
                self.wf(),
                bytes@ == encode_utf8(text@),
                in_range(ids@, 256 + self.merges@.len() as int),
                spec_encode(self.merges@, base) == spec_encode(self.merges@, ids@),
            ensures
                in_range(ids@, 256 + self.merges@.len() as int),
                ids@ == spec_encode(self.merges@, base),
            decreases ids@.len(),
        {
            match self.find_rule(&ids) {
                None => {
                    proof {
                        lemma_encode_done(self.merges@, ids@);
                    }
                    break ;
                },
                Some(i) => {
                    let p = self.merges[i];
                    let new_id: u32 = 256 + (i as u32);
                    proof {
                        lemma_first_rule_from_spec(self.merges@, ids@, 0);
                        assert(rule_applies(self.merges@, ids@, i as int));
                        lemma_merge_shrinks(ids@, p.0, p.1, new_id);
                        lemma_encode_step(self.merges@, ids@);
                        lemma_merge_in_range(ids@, p.0, p.1, new_id, 256 + self.merges@.len() as int);
                    }
                    let newids = merge(&ids, &p, &new_id);
                    ids = newids;
                },
            }
        }
        proof {
            lemma_round_trip(self.merges@, bytes@);
        }
        ids
    }

    /// Decodes a symbol sequence back into text: every id is looked up in
    /// the vocabulary (the first unknown id aborts with `UnknownSymbol`),
    /// the entries are concatenated, and the bytes are read as UTF-8
    /// (aborting with `InvalidUtf8` when they are not).
    pub fn decode(&self, ids: Vec<u32>) -> (r: Result<String, DecodeError>)
        requires
            self.wf(),
        ensures
            r is Ok <==> in_range(ids@, self.vocab@.len() as int) && valid_utf8(
                expand_all(self.merges@, ids@),
            ),
            r matches Ok(text) ==> text@ == decode_utf8(expand_all(self.merges@, ids@)),
            r == Err::<String, DecodeError>(DecodeError::InvalidUtf8) <==> in_range(
                ids@,
                self.vocab@.len() as int,
            ) && !valid_utf8(expand_all(self.merges@, ids@)),
            r matches Err(DecodeError::UnknownSymbol(id)) ==> exists|k: int|
                0 <= k < ids@.len() && ids@[k] == id && id >= self.vocab@.len() && (forall|j: int|
                    0 <= j < k ==> ids@[j] < self.vocab@.len()),
    {
        let mut buf: Vec<u8> = Vec::new();
        let mut k: usize = 0;
        while k < ids.len()
            invariant
                self.wf(),
                k <= ids@.len(),
                buf@ == expand_all(self.merges@, ids@.take(k as int)),
                forall|j: int| 0 <= j < k ==> ids@[j] < self.vocab@.len(),
            decreases ids@.len() - k,
        {
            let id = ids[k];
            if (id as u64) >= (self.vocab.len() as u64) {
                proof {
                    assert(ids@[k as int] == id && id >= self.vocab@.len());
                    assert(!in_range(ids@, self.vocab@.len() as int));
                }
                return Err(DecodeError::UnknownSymbol(id));
            }
            append_bytes(&mut buf, &self.vocab[id as usize]);
            proof {
                assert(ids@.take(k + 1) =~= ids@.take(k as int).push(id));
                lemma_expand_all_snoc(self.merges@, ids@.take(k as int), id);
                assert(self.vocab@[id as int]@ == expand(self.merges@, id));
            }
            k = k + 1;
        }
        proof {
            assert(ids@.take(ids@.len() as int) =~= ids@);
            assert(in_range(ids@, self.vocab@.len() as int));
        }
        match bytes_into_string(buf) {
            Some(s) => Ok(s),
            None => Err(DecodeError::InvalidUtf8),
        }
    }

    /// Decides well-formedness: whether the stored counters, rule table
    /// and vocabulary satisfy exactly the invariant `wf` that `train`
    /// establishes and `encode` / `decode` rely on.
    pub fn check_wf(&self) -> (r: bool)
        ensures
            r == self.wf(),
    {
        if (self.num_merges as u64) != (self.merges.len() as u64) {
            return false;
        }
        if (self.merges.len() as u64) > 0xFFFF_FF00u64 {
            return false;
        }
        if (self.vocab.len() as u64) != (self.merges.len() as u64) + 256 {
            return false;
        }
        if self.vocab_size < 256 {
            return false;
        }
        if self.num_merges > self.vocab_size - 256 {
            return false;
        }
        let mut i: usize = 0;
        while i < 256
            invariant
                i <= 256,
                self.vocab@.len() >= 256,
                forall|id: int|
                    0 <= id < i ==> (#[trigger] self.vocab@[id])@ == expand(
                        self.merges@,
                        id as u32,
                    ),
            decreases 256 - i,
        {
            let entry = &self.vocab[i];
            if entry.len() != 1 {
                proof {
                    assert(self.vocab@[i as int]@ != expand(self.merges@, i as u32));
                }
                return false;
            }
            if entry[0] != (i as u8) {
                proof {
                    assert(self.vocab@[i as int]@ != expand(self.merges@, i as u32));
                }
                return false;
            }
            proof {
                assert(self.vocab@[i as int]@ =~= seq![i as u8]);
            }
            i = i + 1;
        }
        let mut j: usize = 0;
        while j < self.merges.len()
            invariant
                j <= self.merges@.len(),
                self.merges@.len() + 256 <= 0x1_0000_0000,
                self.vocab@.len() == 256 + self.merges@.len(),
                forall|t: int|
                    0 <= t < j ==> (#[trigger] self.merges@[t]).0 < 256 + t && self.merges@[t].1
                        < 256 + t,
                forall|id: int|
                    0 <= id < 256 + j ==> (#[trigger] self.vocab@[id])@ == expand(
                        self.merges@,
                        id as u32,
                    ),
            decreases self.merges@.len() - j,
    {
            let p = self.merges[j];
            if (p.0 as u64) >= 256 + (j as u64) || (p.1 as u64) >= 256 + (j as u64) {
                proof {
                    assert(!valid_rules(self.merges@));
                }
                return false;
            }
            let mut expected: Vec<u8> = Vec::new();
            append_bytes(&mut expected, &self.vocab[p.0 as usize]);
            append_bytes(&mut expected, &self.vocab[p.1 as usize]);
            let same = bytes_eq(&self.vocab[256 + j], &expected);
            proof {
                assert(expand(self.merges@, (256 + j) as u32) == expand(self.merges@, p.0) + expand(
                    self.merges@,
                    p.1,
                ));
                assert(expected@ == expand(self.merges@, p.0) + expand(self.merges@, p.1));
            }
            if !same {
                proof {
                    assert(self.vocab@[256 + j]@ != expand(self.merges@, (256 + j) as u32));
                }
                return false;
            }
            j = j + 1;
        }
        proof {
            assert(valid_rules(self.merges@));
        }
        true
    }
}

} // verus!
