//! The flat text form of a model, and its reader and writer.
//!
//! The persisted form has four newline-separated lines: the vocabulary
//! size, the number of merges, the merge rules as space-separated
//! `left,right,new_id` entries in training order, and the vocabulary as
//! space-separated `id,byte0,...,byteN` entries in id order.

use crate::model::append_bytes;
use crate::model::expand;
use crate::model::lemma_expand_nonempty;
use crate::model::valid_rules;
use crate::model::BasicTokenizer;
use crate::text::bytes_into_string;
use crate::text::text_bytes;
use vstd::prelude::*;
use vstd::utf8::decode_utf8_encode_utf8;
use vstd::utf8::encode_utf8;
use vstd::utf8::is_leading_byte_width_1;
use vstd::utf8::partial_valid_utf8;
use vstd::utf8::partial_valid_utf8_extend_ascii_block;
use vstd::utf8::valid_utf8;

verus! {

/// The persisted text is not in the model format, or describes an
/// ill-formed model.
#[derive(Debug, PartialEq, Eq, Structural, Clone, Copy)]
pub struct ParseError;

/// The views of a sequence of byte vectors.
pub open spec fn vocab_views(vocab: Seq<Vec<u8>>) -> Seq<Seq<u8>> {
    vocab.map_values(|e: Vec<u8>| e@)
}

/// The decimal digits of `n`, as ASCII bytes, most significant first,
/// without leading zeros.
pub open spec fn dec_digits(n: nat) -> Seq<u8>
    decreases n,
{
    if n < 10 {
        seq![(48 + n) as u8]
    } else {
        dec_digits(n / 10) + seq![(48 + n % 10) as u8]
    }
}

/// The numeric value of one ASCII digit.
pub open spec fn digit_of(b: u8) -> nat {
    if 48 <= b <= 57 {
        (b - 48) as nat
    } else {
        0
    }
}

/// The numeric value of a run of ASCII digits.
pub open spec fn digits_val(s: Seq<u8>) -> nat
    decreases s.len(),
{
    if s.len() == 0 {
        0
    } else {
        digits_val(s.drop_last()) * 10 + digit_of(s.last())
    }
}

/// A nonempty run of ASCII digits.
pub open spec fn is_digit_run(s: Seq<u8>) -> bool {
    s.len() >= 1 && forall|i: int| 0 <= i < s.len() ==> 48 <= #[trigger] s[i] <= 57
}

/// The canonical decimal form of a number: digits only, and no leading
/// zero unless the number is zero itself.
pub open spec fn is_canon_num(s: Seq<u8>) -> bool {
    is_digit_run(s) && (s.len() > 1 ==> s[0] != 48)
}

/// Reads a canonical decimal number fitting a `u32`.
pub open spec fn parse_u32(s: Seq<u8>) -> Option<u32> {
    if is_canon_num(s) && digits_val(s) <= u32::MAX {
        Some(digits_val(s) as u32)
    } else {
        None
    }
}

/// The text of merge rule `k`, `left,right,new_id` with `new_id` always
/// `256 + k`.
pub open spec fn rule_bytes(p: (u32, u32), k: int) -> Seq<u8> {
    dec_digits(p.0 as nat) + seq![44u8] + dec_digits(p.1 as nat) + seq![44u8] + dec_digits(
        (256 + k) as nat,
    )
}

/// The text of the merge rules from index `k` on, space-separated.
pub open spec fn rules_line_from(merges: Seq<(u32, u32)>, k: int) -> Seq<u8>
    decreases merges.len() - k,
{
    if k < 0 || k >= merges.len() {
        Seq::empty()
    } else if k == merges.len() - 1 {
        rule_bytes(merges[k], k)
    } else {
        rule_bytes(merges[k], k) + seq![32u8] + rules_line_from(merges, k + 1)
    }
}

/// The comma-led list of the bytes of one vocabulary entry, from byte `j`
/// on.
pub open spec fn byte_list_bytes(entry: Seq<u8>, j: int) -> Seq<u8>
    decreases entry.len() - j,
{
    if j < 0 || j >= entry.len() {
        Seq::empty()
    } else {
        seq![44u8] + dec_digits(entry[j] as nat) + byte_list_bytes(entry, j + 1)
    }
}

/// The text of vocabulary entry `id`: `id,byte0,...,byteN`.
pub open spec fn vocab_entry_bytes(id: int, entry: Seq<u8>) -> Seq<u8> {
    dec_digits(id as nat) + byte_list_bytes(entry, 0)
}

/// The text of the vocabulary entries from index `k` on, space-separated.
pub open spec fn vocab_line_from(vocab: Seq<Seq<u8>>, k: int) -> Seq<u8>
    decreases vocab.len() - k,
{
    if k < 0 || k >= vocab.len() {
        Seq::empty()
    } else if k == vocab.len() - 1 {
        vocab_entry_bytes(k, vocab[k])
    } else {
        vocab_entry_bytes(k, vocab[k]) + seq![32u8] + vocab_line_from(vocab, k + 1)
    }
}

/// The whole persisted form of a model, as raw bytes.
pub open spec fn spec_save_bytes(
    vs: u32,
    nm: u32,
    merges: Seq<(u32, u32)>,
    vocab: Seq<Seq<u8>>,
) -> Seq<u8> {
    dec_digits(vs as nat) + seq![10u8] + dec_digits(nm as nat) + seq![10u8] + rules_line_from(
        merges,
        0,
    ) + seq![10u8] + vocab_line_from(vocab, 0)
}

/// The first index at or after `from` holding `sep`, or the length.
pub open spec fn find_byte(s: Seq<u8>, sep: u8, from: int) -> int
    decreases s.len() - from,
{
    if from < 0 || from >= s.len() {
        s.len() as int
    } else if s[from] == sep {
        from
    } else {
        find_byte(s, sep, from + 1)
    }
}

/// Splits `s` at every occurrence of `sep`; `n` separators yield `n + 1`
/// pieces.
pub open spec fn spec_split(s: Seq<u8>, sep: u8) -> Seq<Seq<u8>>
    decreases s.len(),
{
    let i = find_byte(s, sep, 0);
    if 0 <= i < s.len() {
        seq![s.subrange(0, i)] + spec_split(s.subrange(i + 1, s.len() as int), sep)
    } else {
        seq![s]
    }
}

/// Reads one merge rule entry standing at position `k` of the rules line:
/// three numbers, the third being exactly `256 + k`.
pub open spec fn parse_rule_entry(entry: Seq<u8>, k: int) -> Option<(u32, u32)> {
    let parts = spec_split(entry, 44);
    if parts.len() != 3 {
        None
    } else {
        match (parse_u32(parts[0]), parse_u32(parts[1]), parse_u32(parts[2])) {
            (Some(a), Some(b), Some(c)) => if c == 256 + k {
                Some((a, b))
            } else {
                None
            },
            _ => None,
        }
    }
}

/// Reads the rule entries from position `k` on.
pub open spec fn parse_rule_entries(entries: Seq<Seq<u8>>, k: int) -> Option<Seq<(u32, u32)>>
    decreases entries.len() - k,
{
    if k < 0 || k >= entries.len() {
        Some(Seq::empty())
    } else {
        match parse_rule_entry(entries[k], k) {
            Some(p) => match parse_rule_entries(entries, k + 1) {
                Some(rest) => Some(seq![p] + rest),
                None => None,
            },
            None => None,
        }
    }
}

/// Reads the whole rules line; an empty line is an empty table.
pub open spec fn parse_rules_line(line: Seq<u8>) -> Option<Seq<(u32, u32)>> {
    if line.len() == 0 {
        Some(Seq::empty())
    } else {
        parse_rule_entries(spec_split(line, 32), 0)
    }
}

/// Reads the byte values of one vocabulary entry, from piece `j` on: each
/// piece a number below 256.
pub open spec fn parse_byte_list(parts: Seq<Seq<u8>>, j: int) -> Option<Seq<u8>>
    decreases parts.len() - j,
{
    if j < 0 || j >= parts.len() {
        Some(Seq::empty())
    } else {
        match parse_u32(parts[j]) {
            Some(v) => if v <= 255 {
                match parse_byte_list(parts, j + 1) {
                    Some(rest) => Some(seq![v as u8] + rest),
                    None => None,
                }
            } else {
                None
            },
            None => None,
        }
    }
}

/// Reads one vocabulary entry standing at position `k` of the vocabulary
/// line: its id, which must be exactly `k`, then at least one byte.
pub open spec fn parse_vocab_entry(entry: Seq<u8>, k: int) -> Option<Seq<u8>> {
    let parts = spec_split(entry, 44);
    if parts.len() < 2 {
        None
    } else {
        match parse_u32(parts[0]) {
            Some(id) => if id == k {
                parse_byte_list(parts, 1)
            } else {
                None
            },
            None => None,
        }
    }
}

/// Reads the vocabulary entries from position `k` on.
pub open spec fn parse_vocab_entries(entries: Seq<Seq<u8>>, k: int) -> Option<Seq<Seq<u8>>>
    decreases entries.len() - k,
{
    if k < 0 || k >= entries.len() {
        Some(Seq::empty())
    } else {
        match parse_vocab_entry(entries[k], k) {
            Some(e) => match parse_vocab_entries(entries, k + 1) {
                Some(rest) => Some(seq![e] + rest),
                None => None,
            },
            None => None,
        }
    }
}

/// Reads the whole vocabulary line.
pub open spec fn parse_vocab_line(line: Seq<u8>) -> Option<Seq<Seq<u8>>> {
    if line.len() == 0 {
        Some(Seq::empty())
    } else {
        parse_vocab_entries(spec_split(line, 32), 0)
    }
}

/// The conditions a parsed model must meet: exactly the well-formedness
/// invariant of `BasicTokenizer`, stated over the parsed parts.
pub open spec fn parts_ok(vs: u32, nm: u32, merges: Seq<(u32, u32)>, vocab: Seq<Seq<u8>>) -> bool {
    &&& valid_rules(merges)
    &&& nm == merges.len()
    &&& vocab.len() == 256 + merges.len()
    &&& 256 <= vs
    &&& nm <= vs - 256
    &&& forall|id: int| 0 <= id < vocab.len() ==> vocab[id] == expand(merges, id as u32)
}

/// No byte of `s` equals `x`.
pub open spec fn no_byte(s: Seq<u8>, x: u8) -> bool {
    forall|i: int| 0 <= i < s.len() ==> #[trigger] s[i] != x
}

/// Every byte of `s` is 7-bit, so the text is plain ASCII.
pub open spec fn ascii_bytes(s: Seq<u8>) -> bool {
    forall|i: int| 0 <= i < s.len() ==> #[trigger] s[i] < 128
}

/// Reads a whole persisted model: four lines, each parsed as above, and
/// the result well-formed.
pub open spec fn spec_parse(bytes: Seq<u8>) -> Option<(u32, u32, Seq<(u32, u32)>, Seq<Seq<u8>>)> {
    let lines = spec_split(bytes, 10);
    if lines.len() != 4 {
        None
    } else {
        match (
            parse_u32(lines[0]),
            parse_u32(lines[1]),
            parse_rules_line(lines[2]),
            parse_vocab_line(lines[3]),
        ) {
            (Some(vs), Some(nm), Some(merges), Some(vocab)) => if parts_ok(
                vs,
                nm,
                merges,
                vocab,
            ) {
                Some((vs, nm, merges, vocab))
            } else {
                None
            },
            _ => None,
        }
    }
}

/// The decimal form of a number is a canonical digit run.
pub proof fn lemma_dec_digits_canon(n: nat)
    ensures
        is_digit_run(dec_digits(n)),
        n >= 1 ==> dec_digits(n)[0] != 48,
        is_canon_num(dec_digits(n)),
    decreases n,
{
    if n >= 10 {
        lemma_dec_digits_canon(n / 10);
        assert(dec_digits(n) == dec_digits(n / 10) + seq![(48 + n % 10) as u8]);
        assert(dec_digits(n)[0] == dec_digits(n / 10)[0]);
    }
}

/// Printing then evaluating the digits gives the number back.
pub proof fn lemma_digits_val_print(n: nat)
    ensures
        digits_val(dec_digits(n)) == n,
    decreases n,
{
    if n < 10 {
        assert(dec_digits(n) == seq![(48 + n) as u8]);
        assert(dec_digits(n).drop_last() =~= Seq::<u8>::empty());
        assert(digits_val(Seq::<u8>::empty()) == 0);
        assert(dec_digits(n).last() == (48 + n) as u8);
        assert(digits_val(dec_digits(n)) == digit_of((48 + n) as u8));
    } else {
        lemma_digits_val_print(n / 10);
        let s = dec_digits(n);
        assert(s == dec_digits(n / 10) + seq![(48 + n % 10) as u8]);
        assert(s.drop_last() =~= dec_digits(n / 10));
        assert(s.last() == (48 + n % 10) as u8);
        assert(digit_of((48 + n % 10) as u8) == n % 10);
        assert(digits_val(s) == (n / 10) * 10 + n % 10);
    }
}

/// The canonical decimal form of any `u32`-sized number parses back to it.
pub proof fn lemma_parse_dec(n: nat)
    requires
        n <= u32::MAX,
    ensures
        parse_u32(dec_digits(n)) == Some(n as u32),
{
    lemma_dec_digits_canon(n);
    lemma_digits_val_print(n);
}

/// A digit run holds no separator and is plain ASCII.
pub proof fn lemma_digit_run_clean(s: Seq<u8>)
    requires
        is_digit_run(s),
    ensures
        no_byte(s, 10),
        no_byte(s, 32),
        no_byte(s, 44),
        ascii_bytes(s),
{
}

/// Freedom from a byte survives concatenation, and so does being ASCII.
pub proof fn lemma_clean_concat(a: Seq<u8>, b: Seq<u8>, x: u8)
    requires
        no_byte(a, x),
        no_byte(b, x),
    ensures
        no_byte(a + b, x),
{
    assert forall|i: int| 0 <= i < (a + b).len() implies #[trigger] (a + b)[i] != x by {
        if i < a.len() {
            assert((a + b)[i] == a[i]);
        } else {
            assert((a + b)[i] == b[i - a.len()]);
        }
    }
}

/// ASCII-ness survives concatenation.
pub proof fn lemma_ascii_concat(a: Seq<u8>, b: Seq<u8>)
    requires
        ascii_bytes(a),
        ascii_bytes(b),
    ensures
        ascii_bytes(a + b),
{
    assert forall|i: int| 0 <= i < (a + b).len() implies #[trigger] (a + b)[i] < 128 by {
        if i < a.len() {
            assert((a + b)[i] == a[i]);
        } else {
            assert((a + b)[i] == b[i - a.len()]);
        }
    }
}

/// The text of one rule holds digits and commas only: no newline, no
/// space, all ASCII.
pub proof fn lemma_rule_bytes_clean(p: (u32, u32), k: int)
    requires
        k >= 0,
    ensures
        no_byte(rule_bytes(p, k), 10),
        no_byte(rule_bytes(p, k), 32),
        ascii_bytes(rule_bytes(p, k)),
        rule_bytes(p, k).len() >= 1,
{
    let comma = seq![44u8];
    lemma_dec_digits_canon(p.0 as nat);
    lemma_dec_digits_canon(p.1 as nat);
    lemma_dec_digits_canon((256 + k) as nat);
    lemma_digit_run_clean(dec_digits(p.0 as nat));
    lemma_digit_run_clean(dec_digits(p.1 as nat));
    lemma_digit_run_clean(dec_digits((256 + k) as nat));
    assert(no_byte(comma, 10) && no_byte(comma, 32) && ascii_bytes(comma));
    lemma_clean_concat(dec_digits(p.0 as nat), comma, 10);
    lemma_clean_concat(dec_digits(p.0 as nat), comma, 32);
    lemma_ascii_concat(dec_digits(p.0 as nat), comma);
    let s1 = dec_digits(p.0 as nat) + comma;
    lemma_clean_concat(s1, dec_digits(p.1 as nat), 10);
    lemma_clean_concat(s1, dec_digits(p.1 as nat), 32);
    lemma_ascii_concat(s1, dec_digits(p.1 as nat));
    let s2 = s1 + dec_digits(p.1 as nat);
    lemma_clean_concat(s2, comma, 10);
    lemma_clean_concat(s2, comma, 32);
    lemma_ascii_concat(s2, comma);
    let s3 = s2 + comma;
    lemma_clean_concat(s3, dec_digits((256 + k) as nat), 10);
    lemma_clean_concat(s3, dec_digits((256 + k) as nat), 32);
    lemma_ascii_concat(s3, dec_digits((256 + k) as nat));
}

/// The rules line holds no newline and is plain ASCII.
pub proof fn lemma_rules_line_clean(merges: Seq<(u32, u32)>, k: int)
    ensures
        no_byte(rules_line_from(merges, k), 10),
        ascii_bytes(rules_line_from(merges, k)),
    decreases merges.len() - k,
{
    if k < 0 || k >= merges.len() {
    } else if k == merges.len() - 1 {
        lemma_rule_bytes_clean(merges[k], k);
    } else {
        lemma_rule_bytes_clean(merges[k], k);
        lemma_rules_line_clean(merges, k + 1);
        let sp = seq![32u8];
        lemma_clean_concat(rule_bytes(merges[k], k), sp, 10);
        lemma_ascii_concat(rule_bytes(merges[k], k), sp);
        lemma_clean_concat(rule_bytes(merges[k], k) + sp, rules_line_from(merges, k + 1), 10);
        lemma_ascii_concat(rule_bytes(merges[k], k) + sp, rules_line_from(merges, k + 1));
    }
}

/// The comma-led byte list of a vocabulary entry: no newline, no space,
/// all ASCII.
pub proof fn lemma_byte_list_clean(entry: Seq<u8>, j: int)
    ensures
        no_byte(byte_list_bytes(entry, j), 10),
        no_byte(byte_list_bytes(entry, j), 32),
        ascii_bytes(byte_list_bytes(entry, j)),
    decreases entry.len() - j,
{
    if j < 0 || j >= entry.len() {
    } else {
        lemma_byte_list_clean(entry, j + 1);
        lemma_dec_digits_canon(entry[j] as nat);
        lemma_digit_run_clean(dec_digits(entry[j] as nat));
        let comma = seq![44u8];
        lemma_clean_concat(comma, dec_digits(entry[j] as nat), 10);
        lemma_clean_concat(comma, dec_digits(entry[j] as nat), 32);
        lemma_ascii_concat(comma, dec_digits(entry[j] as nat));
        lemma_clean_concat(
            comma + dec_digits(entry[j] as nat),
            byte_list_bytes(entry, j + 1),
            10,
        );
        lemma_clean_concat(
            comma + dec_digits(entry[j] as nat),
            byte_list_bytes(entry, j + 1),
            32,
        );
        lemma_ascii_concat(comma + dec_digits(entry[j] as nat), byte_list_bytes(entry, j + 1));
        assert(byte_list_bytes(entry, j) =~= (comma + dec_digits(entry[j] as nat))
            + byte_list_bytes(entry, j + 1));
    }
}

/// The text of one vocabulary entry: no newline, no space, all ASCII.
pub proof fn lemma_vocab_entry_clean(id: int, entry: Seq<u8>)
    requires
        id >= 0,
    ensures
        no_byte(vocab_entry_bytes(id, entry), 10),
        no_byte(vocab_entry_bytes(id, entry), 32),
        ascii_bytes(vocab_entry_bytes(id, entry)),
        vocab_entry_bytes(id, entry).len() >= 1,
{
    lemma_dec_digits_canon(id as nat);
    lemma_digit_run_clean(dec_digits(id as nat));
    lemma_byte_list_clean(entry, 0);
    lemma_clean_concat(dec_digits(id as nat), byte_list_bytes(entry, 0), 10);
    lemma_clean_concat(dec_digits(id as nat), byte_list_bytes(entry, 0), 32);
    lemma_ascii_concat(dec_digits(id as nat), byte_list_bytes(entry, 0));
}

/// The vocabulary line holds no newline and is plain ASCII.
pub proof fn lemma_vocab_line_clean(vocab: Seq<Seq<u8>>, k: int)
    ensures
        no_byte(vocab_line_from(vocab, k), 10),
        ascii_bytes(vocab_line_from(vocab, k)),
    decreases vocab.len() - k,
{
    if k < 0 || k >= vocab.len() {
    } else if k == vocab.len() - 1 {
        lemma_vocab_entry_clean(k, vocab[k]);
    } else {
        lemma_vocab_entry_clean(k, vocab[k]);
        lemma_vocab_line_clean(vocab, k + 1);
        let sp = seq![32u8];
        lemma_clean_concat(vocab_entry_bytes(k, vocab[k]), sp, 10);
        lemma_ascii_concat(vocab_entry_bytes(k, vocab[k]), sp);
        lemma_clean_concat(vocab_entry_bytes(k, vocab[k]) + sp, vocab_line_from(vocab, k + 1), 10);
        lemma_ascii_concat(vocab_entry_bytes(k, vocab[k]) + sp, vocab_line_from(vocab, k + 1));
    }
}

/// Where the first separator stands: right after a separator-free prefix.
pub proof fn lemma_find_byte_is(s: Seq<u8>, sep: u8, from: int, k: int)
    requires
        0 <= from <= k <= s.len(),
        forall|j: int| from <= j < k ==> #[trigger] s[j] != sep,
        k == s.len() || s[k] == sep,
    ensures
        find_byte(s, sep, from) == k,
    decreases k - from,
{
    if from < k {
        lemma_find_byte_is(s, sep, from + 1, k);
    }
}

/// A separator-free sequence splits into itself alone.
pub proof fn lemma_split_single(s: Seq<u8>, sep: u8)
    requires
        no_byte(s, sep),
    ensures
        spec_split(s, sep) == seq![s],
{
    lemma_find_byte_is(s, sep, 0, s.len() as int);
}

/// Splitting after a separator-free head peels the head off.
pub proof fn lemma_split_cons(a: Seq<u8>, b: Seq<u8>, sep: u8)
    requires
        no_byte(a, sep),
    ensures
        spec_split(a + seq![sep] + b, sep) == seq![a] + spec_split(b, sep),
{
    let s = a + seq![sep] + b;
    assert(s.len() == a.len() + 1 + b.len());
    assert forall|j: int| 0 <= j < a.len() implies #[trigger] s[j] != sep by {
        assert(s[j] == a[j]);
    }
    assert(s[a.len() as int] == sep);
    lemma_find_byte_is(s, sep, 0, a.len() as int);
    assert(s.subrange(0, a.len() as int) =~= a);
    assert(s.subrange(a.len() as int + 1, s.len() as int) =~= b);
}

/// The rules line splits at spaces into exactly the rule texts.
pub proof fn lemma_split_rules_line(merges: Seq<(u32, u32)>, k: int)
    requires
        0 <= k < merges.len(),
    ensures
        spec_split(rules_line_from(merges, k), 32).len() == merges.len() - k,
        forall|t: int|
            0 <= t < merges.len() - k ==> #[trigger] spec_split(rules_line_from(merges, k), 32)[t]
                == rule_bytes(merges[k + t], k + t),
    decreases merges.len() - k,
{
    if k == merges.len() - 1 {
        lemma_rule_bytes_clean(merges[k], k);
        lemma_split_single(rule_bytes(merges[k], k), 32);
    } else {
        lemma_rule_bytes_clean(merges[k], k);
        lemma_split_cons(rule_bytes(merges[k], k), rules_line_from(merges, k + 1), 32);
        lemma_split_rules_line(merges, k + 1);
    }
}

/// The vocabulary line splits at spaces into exactly the entry texts.
pub proof fn lemma_split_vocab_line(vocab: Seq<Seq<u8>>, k: int)
    requires
        0 <= k < vocab.len(),
    ensures
        spec_split(vocab_line_from(vocab, k), 32).len() == vocab.len() - k,
        forall|t: int|
            0 <= t < vocab.len() - k ==> #[trigger] spec_split(vocab_line_from(vocab, k), 32)[t]
                == vocab_entry_bytes(k + t, vocab[k + t]),
    decreases vocab.len() - k,
{
    if k == vocab.len() - 1 {
        lemma_vocab_entry_clean(k, vocab[k]);
        lemma_split_single(vocab_entry_bytes(k, vocab[k]), 32);
    } else {
        lemma_vocab_entry_clean(k, vocab[k]);
        lemma_split_cons(vocab_entry_bytes(k, vocab[k]), vocab_line_from(vocab, k + 1), 32);
        lemma_split_vocab_line(vocab, k + 1);
    }
}

/// The text of one rule parses back to the rule.
pub proof fn lemma_parse_rule_entry_print(p: (u32, u32), k: int)
    requires
        0 <= k,
        256 + k <= u32::MAX,
    ensures
        parse_rule_entry(rule_bytes(p, k), k) == Some(p),
{
    let da = dec_digits(p.0 as nat);
    let db = dec_digits(p.1 as nat);
    let dc = dec_digits((256 + k) as nat);
    lemma_dec_digits_canon(p.0 as nat);
    lemma_dec_digits_canon(p.1 as nat);
    lemma_dec_digits_canon((256 + k) as nat);
    lemma_digit_run_clean(da);
    lemma_digit_run_clean(db);
    lemma_digit_run_clean(dc);
    assert(rule_bytes(p, k) =~= da + seq![44u8] + (db + seq![44u8] + dc));
    lemma_split_cons(da, db + seq![44u8] + dc, 44);
    lemma_split_cons(db, dc, 44);
    lemma_split_single(dc, 44);
    let parts = spec_split(rule_bytes(p, k), 44);
    assert(parts =~= seq![da, db, dc]);
    lemma_parse_dec(p.0 as nat);
    lemma_parse_dec(p.1 as nat);
    lemma_parse_dec((256 + k) as nat);
    assert(parts[0] == da && parts[1] == db && parts[2] == dc);
}

/// Rule texts standing in order parse back to the table's tail.
pub proof fn lemma_parse_rule_entries_print(
    entries: Seq<Seq<u8>>,
    merges: Seq<(u32, u32)>,
    k: int,
)
    requires
        0 <= k <= merges.len(),
        entries.len() == merges.len(),
        merges.len() + 256 <= 0x1_0000_0000,
        forall|t: int| k <= t < merges.len() ==> #[trigger] entries[t] == rule_bytes(merges[t], t),
    ensures
        parse_rule_entries(entries, k) == Some(merges.skip(k)),
    decreases merges.len() - k,
{
    if k == merges.len() {
        assert(merges.skip(k) =~= Seq::<(u32, u32)>::empty());
    } else {
        lemma_parse_rule_entry_print(merges[k], k);
        lemma_parse_rule_entries_print(entries, merges, k + 1);
        assert(seq![merges[k]] + merges.skip(k + 1) =~= merges.skip(k));
    }
}

/// The whole rules line parses back to the whole table.
pub proof fn lemma_parse_rules_line_print(merges: Seq<(u32, u32)>)
    requires
        merges.len() + 256 <= 0x1_0000_0000,
    ensures
        parse_rules_line(rules_line_from(merges, 0)) == Some(merges),
{
    if merges.len() == 0 {
        assert(merges =~= Seq::<(u32, u32)>::empty());
    } else {
        lemma_rule_bytes_clean(merges[0], 0);
        assert(rules_line_from(merges, 0).len() >= 1) by {
            if merges.len() > 1 {
                assert(rules_line_from(merges, 0) == rule_bytes(merges[0], 0) + seq![32u8]
                    + rules_line_from(merges, 1));
            }
        }
        lemma_split_rules_line(merges, 0);
        lemma_parse_rule_entries_print(spec_split(rules_line_from(merges, 0), 32), merges, 0);
        assert(merges.skip(0) =~= merges);
    }
}

/// The pieces of one vocabulary entry text, after the id: one digit run
/// per entry byte.
pub proof fn lemma_split_vocab_entry(x: nat, entry: Seq<u8>, j: int)
    requires
        0 <= j <= entry.len(),
    ensures
        spec_split(dec_digits(x) + byte_list_bytes(entry, j), 44).len() == 1 + entry.len() - j,
        spec_split(dec_digits(x) + byte_list_bytes(entry, j), 44)[0] == dec_digits(x),
        forall|t: int|
            1 <= t < 1 + entry.len() - j ==> #[trigger] spec_split(
                dec_digits(x) + byte_list_bytes(entry, j),
                44,
            )[t] == dec_digits(entry[j + t - 1] as nat),
    decreases entry.len() - j,
{
    lemma_dec_digits_canon(x);
    lemma_digit_run_clean(dec_digits(x));
    if j == entry.len() {
        assert(dec_digits(x) + byte_list_bytes(entry, j) =~= dec_digits(x));
        lemma_split_single(dec_digits(x), 44);
    } else {
        lemma_split_vocab_entry(entry[j] as nat, entry, j + 1);
        assert(dec_digits(x) + byte_list_bytes(entry, j) =~= dec_digits(x) + seq![44u8] + (
        dec_digits(entry[j] as nat) + byte_list_bytes(entry, j + 1)));
        lemma_split_cons(dec_digits(x), dec_digits(entry[j] as nat) + byte_list_bytes(entry, j + 1), 44);
    }
}

/// Digit runs standing in order parse back to the entry's bytes.
pub proof fn lemma_parse_byte_list_print(parts: Seq<Seq<u8>>, entry: Seq<u8>, o: int)
    requires
        1 <= o <= parts.len(),
        parts.len() == o + entry.len(),
        forall|t: int|
            o <= t < parts.len() ==> #[trigger] parts[t] == dec_digits(entry[t - o] as nat),
    ensures
        parse_byte_list(parts, o) == Some(entry),
    decreases parts.len() - o,
{
    if o == parts.len() {
        assert(entry =~= Seq::<u8>::empty());
    } else {
        lemma_parse_dec(entry[0] as nat);
        lemma_parse_byte_list_print(parts, entry.skip(1), o + 1);
        assert(seq![entry[0]] + entry.skip(1) =~= entry);
    }
}

/// The text of one vocabulary entry parses back to the entry.
pub proof fn lemma_parse_vocab_entry_print(k: int, entry: Seq<u8>)
    requires
        0 <= k <= u32::MAX,
        entry.len() >= 1,
    ensures
        parse_vocab_entry(vocab_entry_bytes(k, entry), k) == Some(entry),
{
    lemma_split_vocab_entry(k as nat, entry, 0);
    let parts = spec_split(vocab_entry_bytes(k, entry), 44);
    assert(parts.len() == 1 + entry.len());
    lemma_parse_dec(k as nat);
    lemma_parse_byte_list_print(parts, entry, 1);
}

/// Vocabulary entry texts standing in order parse back to the
/// vocabulary's tail.
pub proof fn lemma_parse_vocab_entries_print(entries: Seq<Seq<u8>>, vocab: Seq<Seq<u8>>, k: int)
    requires
        0 <= k <= vocab.len(),
        entries.len() == vocab.len(),
        vocab.len() <= u32::MAX + 1,
        forall|t: int| 0 <= t < vocab.len() ==> (#[trigger] vocab[t]).len() >= 1,
        forall|t: int|
            k <= t < vocab.len() ==> #[trigger] entries[t] == vocab_entry_bytes(t, vocab[t]),
    ensures
        parse_vocab_entries(entries, k) == Some(vocab.skip(k)),
    decreases vocab.len() - k,
{
    if k == vocab.len() {
        assert(vocab.skip(k) =~= Seq::<Seq<u8>>::empty());
    } else {
        lemma_parse_vocab_entry_print(k, vocab[k]);
        lemma_parse_vocab_entries_print(entries, vocab, k + 1);
        assert(seq![vocab[k]] + vocab.skip(k + 1) =~= vocab.skip(k));
    }
}

/// The whole vocabulary line parses back to the whole vocabulary.
pub proof fn lemma_parse_vocab_line_print(vocab: Seq<Seq<u8>>)
    requires
        1 <= vocab.len() <= u32::MAX + 1,
        forall|t: int| 0 <= t < vocab.len() ==> (#[trigger] vocab[t]).len() >= 1,
    ensures
        parse_vocab_line(vocab_line_from(vocab, 0)) == Some(vocab),
{
    lemma_vocab_entry_clean(0, vocab[0]);
    assert(vocab_line_from(vocab, 0).len() >= 1) by {
        if vocab.len() > 1 {
            assert(vocab_line_from(vocab, 0) == vocab_entry_bytes(0, vocab[0]) + seq![32u8]
                + vocab_line_from(vocab, 1));
        }
    }
    lemma_split_vocab_line(vocab, 0);
    lemma_parse_vocab_entries_print(spec_split(vocab_line_from(vocab, 0), 32), vocab, 0);
    assert(vocab.skip(0) =~= vocab);
}

/// The persisted text of any well-formed model parses back to exactly
/// that model: serialize then deserialize is the identity.
pub proof fn lemma_parse_save(vs: u32, nm: u32, merges: Seq<(u32, u32)>, vocab: Seq<Seq<u8>>)
    requires
        parts_ok(vs, nm, merges, vocab),
    ensures
        spec_parse(spec_save_bytes(vs, nm, merges, vocab)) == Some((vs, nm, merges, vocab)),
{
    let d1 = dec_digits(vs as nat);
    let d2 = dec_digits(nm as nat);
    let rl = rules_line_from(merges, 0);
    let vl = vocab_line_from(vocab, 0);
    let nl = seq![10u8];
    lemma_dec_digits_canon(vs as nat);
    lemma_dec_digits_canon(nm as nat);
    lemma_digit_run_clean(d1);
    lemma_digit_run_clean(d2);
    lemma_rules_line_clean(merges, 0);
    lemma_vocab_line_clean(vocab, 0);
    assert(spec_save_bytes(vs, nm, merges, vocab) =~= d1 + nl + (d2 + nl + (rl + nl + vl)));
    lemma_split_cons(d1, d2 + nl + (rl + nl + vl), 10);
    lemma_split_cons(d2, rl + nl + vl, 10);
    lemma_split_cons(rl, vl, 10);
    lemma_split_single(vl, 10);
    let lines = spec_split(spec_save_bytes(vs, nm, merges, vocab), 10);
    assert(lines =~= seq![d1, d2, rl, vl]);
    lemma_parse_dec(vs as nat);
    lemma_parse_dec(nm as nat);
    lemma_parse_rules_line_print(merges);
    assert forall|t: int| 0 <= t < vocab.len() implies (#[trigger] vocab[t]).len() >= 1 by {
        lemma_expand_nonempty(merges, t as u32);
        assert(vocab[t] == expand(merges, t as u32));
    }
    lemma_parse_vocab_line_print(vocab);
}

/// The persisted bytes of a model are plain ASCII.
pub proof fn lemma_save_ascii(vs: u32, nm: u32, merges: Seq<(u32, u32)>, vocab: Seq<Seq<u8>>)
    ensures
        ascii_bytes(spec_save_bytes(vs, nm, merges, vocab)),
{
    let d1 = dec_digits(vs as nat);
    let d2 = dec_digits(nm as nat);
    let rl = rules_line_from(merges, 0);
    let vl = vocab_line_from(vocab, 0);
    let nl = seq![10u8];
    lemma_dec_digits_canon(vs as nat);
    lemma_dec_digits_canon(nm as nat);
    lemma_digit_run_clean(d1);
    lemma_digit_run_clean(d2);
    lemma_rules_line_clean(merges, 0);
    lemma_vocab_line_clean(vocab, 0);
    assert(ascii_bytes(nl));
    lemma_ascii_concat(d1, nl);
    lemma_ascii_concat(d1 + nl, d2);
    lemma_ascii_concat(d1 + nl + d2, nl);
    lemma_ascii_concat(d1 + nl + d2 + nl, rl);
    lemma_ascii_concat(d1 + nl + d2 + nl + rl, nl);
    lemma_ascii_concat(d1 + nl + d2 + nl + rl + nl, vl);
}

/// Appends the decimal digits of `n`, most significant first.
fn push_u32(out: &mut Vec<u8>, n: u32)
    ensures
        final(out)@ == old(out)@ + dec_digits(n as nat),
    decreases n,
{
    if n >= 10 {
        push_u32(out, n / 10);
        out.push(48 + ((n % 10) as u8));
        proof {
            assert(final(out)@ =~= old(out)@ + dec_digits(n as nat));
        }
    } else {
        out.push(48 + (n as u8));
        proof {
            assert(final(out)@ =~= old(out)@ + dec_digits(n as nat));
        }
    }
}

/// Builds the space-separated rules line of a table.
fn build_rules_line(merges: &Vec<(u32, u32)>) -> (out: Vec<u8>)
    requires
        merges@.len() + 256 <= 0x1_0000_0000,
    ensures
        out@ == rules_line_from(merges@, 0),
{
    let mut out: Vec<u8> = Vec::new();
    let mut k: usize = 0;
    proof {
        assert(out@ + rules_line_from(merges@, 0) =~= rules_line_from(merges@, 0));
    }
    while k < merges.len()
        invariant
            k <= merges@.len(),
            merges@.len() + 256 <= 0x1_0000_0000,
            rules_line_from(merges@, 0) == out@ + rules_line_from(merges@, k as int),
        decreases merges@.len() - k,
    {
        let ghost out0 = out@;
        let p = merges[k];
        push_u32(&mut out, p.0);
        out.push(44);
        push_u32(&mut out, p.1);
        out.push(44);
        let new_id: u32 = 256 + (k as u32);
        push_u32(&mut out, new_id);
        proof {
            assert(out@ =~= out0 + rule_bytes(merges@[k as int], k as int));
        }
        if k + 1 < merges.len() {
            out.push(32);
            proof {
                assert(rules_line_from(merges@, k as int) == rule_bytes(merges@[k as int], k as int)
                    + seq![32u8] + rules_line_from(merges@, k + 1));
                assert(out@ + rules_line_from(merges@, k + 1) =~= out0 + rules_line_from(
                    merges@,
                    k as int,
                ));
            }
        } else {
            proof {
                assert(rules_line_from(merges@, k as int) == rule_bytes(
                    merges@[k as int],
                    k as int,
                ));
                assert(out@ + rules_line_from(merges@, k + 1) =~= out0 + rules_line_from(
                    merges@,
                    k as int,
                ));
            }
        }
        k = k + 1;
    }
    proof {
        assert(out@ + rules_line_from(merges@, merges@.len() as int) =~= out@);
    }
    out
}

/// Builds the space-separated vocabulary line.
fn build_vocab_line(vocab: &Vec<Vec<u8>>) -> (out: Vec<u8>)
    requires
        vocab@.len() <= 0x1_0000_0000,
    ensures
        out@ == vocab_line_from(vocab_views(vocab@), 0),
{
    let ghost vv = vocab_views(vocab@);
    let mut out: Vec<u8> = Vec::new();
    let mut k: usize = 0;
    proof {
        assert(vv.len() == vocab@.len());
        assert(out@ + vocab_line_from(vv, 0) =~= vocab_line_from(vv, 0));
    }
    while k < vocab.len()
        invariant
            k <= vocab@.len(),
            vocab@.len() <= 0x1_0000_0000,
            vv == vocab_views(vocab@),
            vocab_line_from(vv, 0) == out@ + vocab_line_from(vv, k as int),
        decreases vocab@.len() - k,
    {
        let ghost out0 = out@;
        let id: u32 = k as u32;
        push_u32(&mut out, id);
        let ghost base = out@;
        let entry = &vocab[k];
        proof {
            assert(vv[k as int] == entry@);
        }
        let mut j: usize = 0;
        proof {
            assert(out@ + byte_list_bytes(entry@, 0) =~= base + byte_list_bytes(entry@, 0));
        }
        while j < entry.len()
            invariant
                j <= entry@.len(),
                out@ + byte_list_bytes(entry@, j as int) == base + byte_list_bytes(entry@, 0),
            decreases entry@.len() - j,
        {
            let ghost outj = out@;
            out.push(44);
            push_u32(&mut out, entry[j] as u32);
            proof {
                assert(byte_list_bytes(entry@, j as int) == seq![44u8] + dec_digits(
                    entry@[j as int] as nat,
                ) + byte_list_bytes(entry@, j + 1));
                assert(out@ + byte_list_bytes(entry@, j + 1) =~= outj + byte_list_bytes(
                    entry@,
                    j as int,
                ));
            }
            j = j + 1;
        }
        proof {
            assert(out@ + byte_list_bytes(entry@, entry@.len() as int) =~= out@);
            assert(out@ == base + byte_list_bytes(entry@, 0));
            assert(out@ =~= out0 + vocab_entry_bytes(k as int, vv[k as int]));
        }
        if k + 1 < vocab.len() {
            out.push(32);
            proof {
                assert(vocab_line_from(vv, k as int) == vocab_entry_bytes(k as int, vv[k as int])
                    + seq![32u8] + vocab_line_from(vv, k + 1));
                assert(out@ + vocab_line_from(vv, k + 1) =~= out0 + vocab_line_from(vv, k as int));
            }
        } else {
            proof {
                assert(vocab_line_from(vv, k as int) == vocab_entry_bytes(
                    k as int,
                    vv[k as int],
                ));
                assert(out@ + vocab_line_from(vv, k + 1) =~= out0 + vocab_line_from(vv, k as int));
            }
        }
        k = k + 1;
    }
    proof {
        assert(out@ + vocab_line_from(vv, vv.len() as int) =~= out@);
    }
    out
}

/// Splits a byte vector at every occurrence of `sep`.
fn split_bytes(bytes: &Vec<u8>, sep: u8) -> (r: Vec<Vec<u8>>)
    ensures
        vocab_views(r@) == spec_split(bytes@, sep),
{
    let mut done: Vec<Vec<u8>> = Vec::new();
    let mut cur: Vec<u8> = Vec::new();
    let mut start: usize = 0;
    let mut i: usize = 0;
    proof {
        assert(bytes@.subrange(0, bytes@.len() as int) =~= bytes@);
        assert(vocab_views(done@) + spec_split(bytes@, sep) =~= spec_split(bytes@, sep));
        assert(cur@ =~= bytes@.subrange(0, 0));
    }
    while i < bytes.len()
        invariant
            start <= i <= bytes@.len(),
            cur@ == bytes@.subrange(start as int, i as int),
            forall|j: int| start <= j < i ==> bytes@[j] != sep,
            spec_split(bytes@, sep) == vocab_views(done@) + spec_split(
                bytes@.subrange(start as int, bytes@.len() as int),
                sep,
            ),
        decreases bytes@.len() - i,
    {
        let b = bytes[i];
        if b == sep {
            proof {
                let rest = bytes@.subrange(start as int, bytes@.len() as int);
                assert forall|j: int| 0 <= j < i - start implies #[trigger] rest[j] != sep by {
                    assert(rest[j] == bytes@[start + j]);
                }
                assert(rest[i - start] == sep);
                lemma_find_byte_is(rest, sep, 0, i - start);
                assert(rest.subrange(0, i - start) =~= cur@);
                assert(rest.subrange(i - start + 1, rest.len() as int) =~= bytes@.subrange(
                    i + 1,
                    bytes@.len() as int,
                ));
                assert(spec_split(rest, sep) == seq![cur@] + spec_split(
                    bytes@.subrange(i + 1, bytes@.len() as int),
                    sep,
                ));
                assert(vocab_views(done@.push(cur)) =~= vocab_views(done@).push(cur@));
                assert(vocab_views(done@).push(cur@) + spec_split(
                    bytes@.subrange(i + 1, bytes@.len() as int),
                    sep,
                ) =~= vocab_views(done@) + (seq![cur@] + spec_split(
                    bytes@.subrange(i + 1, bytes@.len() as int),
                    sep,
                )));
            }
            done.push(cur);
            cur = Vec::new();
            start = i + 1;
            proof {
                assert(cur@ =~= bytes@.subrange(start as int, start as int));
            }
        } else {
            cur.push(b);
            proof {
                assert(cur@ =~= bytes@.subrange(start as int, i + 1));
            }
        }
        i = i + 1;
    }
    proof {
        let rest = bytes@.subrange(start as int, bytes@.len() as int);
        assert forall|j: int| 0 <= j < rest.len() implies #[trigger] rest[j] != sep by {
            assert(rest[j] == bytes@[start + j]);
        }
        lemma_split_single(rest, sep);
        assert(rest == cur@);
        assert(vocab_views(done@.push(cur)) =~= vocab_views(done@).push(cur@));
        assert(vocab_views(done@) + seq![cur@] =~= vocab_views(done@).push(cur@));
    }
    done.push(cur);
    done
}

/// The value of a digit prefix never exceeds the value of the whole run.
pub proof fn lemma_digits_val_prefix(s: Seq<u8>, k: int)
    requires
        0 <= k <= s.len(),
    ensures
        digits_val(s.take(k)) <= digits_val(s),
    decreases s.len() - k,
{
    if k < s.len() {
        lemma_digits_val_prefix(s, k + 1);
        assert(s.take(k + 1).drop_last() =~= s.take(k));
        assert(s.take(k + 1).last() == s[k]);
        assert(digits_val(s.take(k + 1)) == digits_val(s.take(k)) * 10 + digit_of(s[k]));
    } else {
        assert(s.take(k) =~= s);
    }
}

/// Reads a canonical decimal `u32` from a byte vector.
fn parse_u32_bytes(line: &Vec<u8>) -> (r: Option<u32>)
    ensures
        r == parse_u32(line@),
{
    if line.len() == 0 {
        proof {
            assert(!is_digit_run(line@));
        }
        return None;
    }
    if line.len() > 1 && line[0] == 48 {
        proof {
            assert(!is_canon_num(line@));
        }
        return None;
    }
    let mut val: u64 = 0;
    let mut i: usize = 0;
    proof {
        assert(line@.take(0) =~= Seq::<u8>::empty());
    }
    while i < line.len()
        invariant
            i <= line@.len(),
            1 <= line@.len(),
            line@.len() > 1 ==> line@[0] != 48,
            val == digits_val(line@.take(i as int)),
            val <= u32::MAX,
            forall|j: int| 0 <= j < i ==> 48 <= #[trigger] line@[j] <= 57,
        decreases line@.len() - i,
    {
        let b = line[i];
        if b < 48 || b > 57 {
            proof {
                assert(!is_digit_run(line@));
            }
            return None;
        }
        proof {
            assert(line@.take(i + 1).drop_last() =~= line@.take(i as int));
            assert(line@.take(i + 1).last() == b);
            assert(digits_val(line@.take(i + 1)) == val * 10 + digit_of(b));
        }
        val = val * 10 + ((b - 48) as u64);
        if val > 0xFFFF_FFFFu64 {
            proof {
                if is_canon_num(line@) && digits_val(line@) <= u32::MAX {
                    lemma_digits_val_prefix(line@, i + 1);
                    assert(false);
                }
            }
            return None;
        }
        i = i + 1;
    }
    proof {
        assert(line@.take(line@.len() as int) =~= line@);
        assert(is_canon_num(line@));
    }
    Some(val as u32)
}

/// Reads one rules-line entry standing at position `k`.
fn parse_rule_entry_vec(entry: &Vec<u8>, k: usize) -> (r: Option<(u32, u32)>)
    ensures
        r == parse_rule_entry(entry@, k as int),
{
    let parts = split_bytes(entry, 44);
    proof {
        assert(vocab_views(parts@).len() == parts@.len());
    }
    if parts.len() != 3 {
        return None;
    }
    proof {
        assert(vocab_views(parts@)[0] == parts@[0]@);
        assert(vocab_views(parts@)[1] == parts@[1]@);
        assert(vocab_views(parts@)[2] == parts@[2]@);
    }
    let a = match parse_u32_bytes(&parts[0]) {
        Some(v) => v,
        None => {
            return None;
        },
    };
    let b = match parse_u32_bytes(&parts[1]) {
        Some(v) => v,
        None => {
            return None;
        },
    };
    let c = match parse_u32_bytes(&parts[2]) {
        Some(v) => v,
        None => {
            return None;
        },
    };
    if c < 256 {
        return None;
    }
    if ((c - 256) as usize) != k {
        return None;
    }
    Some((a, b))
}

/// Reads the whole rules line from a byte vector.
fn parse_rules_vec(line: &Vec<u8>) -> (r: Option<Vec<(u32, u32)>>)
    ensures
        r is Some <==> parse_rules_line(line@) is Some,
        r matches Some(v) ==> parse_rules_line(line@) == Some(v@),
{
    if line.len() == 0 {
        let out: Vec<(u32, u32)> = Vec::new();
        proof {
            assert(out@ =~= Seq::<(u32, u32)>::empty());
        }
        return Some(out);
    }
    let entries = split_bytes(line, 32);
    let ghost views = vocab_views(entries@);
    let mut out: Vec<(u32, u32)> = Vec::new();
    let mut k: usize = 0;
    while k < entries.len()
        invariant
            k <= entries@.len(),
            views == vocab_views(entries@),
            views == spec_split(line@, 32),
            line@.len() != 0,
            forall|rest: Seq<(u32, u32)>|
                parse_rule_entries(views, k as int) == Some(rest)
                    ==> #[trigger] parse_rule_entries(views, 0) == Some(out@ + rest),
            parse_rule_entries(views, k as int) is None ==> parse_rule_entries(views, 0) is None,
        decreases entries@.len() - k,
    {
        proof {
            assert(views[k as int] == entries@[k as int]@);
        }
        match parse_rule_entry_vec(&entries[k], k) {
            None => {
                proof {
                    assert(parse_rule_entries(views, k as int) is None);
                }
                return None;
            },
            Some(p) => {
                let ghost out0 = out@;
                out.push(p);
                proof {
                    assert(parse_rule_entry(views[k as int], k as int) == Some(p));
                    assert forall|rest: Seq<(u32, u32)>|
                        parse_rule_entries(views, k + 1) == Some(rest) implies #[trigger] parse_rule_entries(
                        views,
                        0,
                    ) == Some(out@ + rest) by {
                        assert(parse_rule_entries(views, k as int) == Some(seq![p] + rest));
                        assert(out0 + (seq![p] + rest) =~= out@ + rest);
                    }
                }
            },
        }
        k = k + 1;
    }
    proof {
        assert(parse_rule_entries(views, k as int) == Some(Seq::<(u32, u32)>::empty()));
        assert(out@ + Seq::<(u32, u32)>::empty() =~= out@);
    }
    Some(out)
}

/// Reads one vocabulary-line entry standing at position `k`.
fn parse_vocab_entry_vec(entry: &Vec<u8>, k: usize) -> (r: Option<Vec<u8>>)
    ensures
        r is Some <==> parse_vocab_entry(entry@, k as int) is Some,
        r matches Some(v) ==> parse_vocab_entry(entry@, k as int) == Some(v@),
{
    let parts = split_bytes(entry, 44);
    let ghost views = vocab_views(parts@);
    proof {
        assert(views.len() == parts@.len());
    }
    if parts.len() < 2 {
        return None;
    }
    proof {
        assert(views[0] == parts@[0]@);
    }
    let id = match parse_u32_bytes(&parts[0]) {
        Some(v) => v,
        None => {
            return None;
        },
    };
    if (id as usize) != k {
        return None;
    }
    let mut out: Vec<u8> = Vec::new();
    let mut j: usize = 1;
    while j < parts.len()
        invariant
            1 <= j <= parts@.len(),
            views == vocab_views(parts@),
            parse_vocab_entry(entry@, k as int) == parse_byte_list(views, 1),
            forall|rest: Seq<u8>|
                parse_byte_list(views, j as int) == Some(rest) ==> #[trigger] parse_byte_list(
                    views,
                    1,
                ) == Some(out@ + rest),
            parse_byte_list(views, j as int) is None ==> parse_byte_list(views, 1) is None,
        decreases parts@.len() - j,
    {
        proof {
            assert(views[j as int] == parts@[j as int]@);
        }
        let v = match parse_u32_bytes(&parts[j]) {
            Some(v) => v,
            None => {
                proof {
                    assert(parse_byte_list(views, j as int) is None);
                }
                return None;
            },
        };
        if v > 255 {
            proof {
                assert(parse_byte_list(views, j as int) is None);
            }
            return None;
        }
        let ghost out0 = out@;
        out.push(v as u8);
        proof {
            assert forall|rest: Seq<u8>| parse_byte_list(views, j + 1) == Some(
                rest,
            ) implies #[trigger] parse_byte_list(views, 1) == Some(out@ + rest) by {
                assert(parse_byte_list(views, j as int) == Some(seq![v as u8] + rest));
                assert(out0 + (seq![v as u8] + rest) =~= out@ + rest);
            }
        }
        j = j + 1;
    }
    proof {
        assert(parse_byte_list(views, j as int) == Some(Seq::<u8>::empty()));
        assert(out@ + Seq::<u8>::empty() =~= out@);
    }
    Some(out)
}

/// Reads the whole vocabulary line from a byte vector.
fn parse_vocab_vec(line: &Vec<u8>) -> (r: Option<Vec<Vec<u8>>>)
    ensures
        r is Some <==> parse_vocab_line(line@) is Some,
        r matches Some(v) ==> parse_vocab_line(line@) == Some(vocab_views(v@)),
{
    if line.len() == 0 {
        let out: Vec<Vec<u8>> = Vec::new();
        proof {
            assert(vocab_views(out@) =~= Seq::<Seq<u8>>::empty());
        }
        return Some(out);
    }
    let entries = split_bytes(line, 32);
    let ghost views = vocab_views(entries@);
    let mut out: Vec<Vec<u8>> = Vec::new();
    let mut k: usize = 0;
    while k < entries.len()
        invariant
            k <= entries@.len(),
            views == vocab_views(entries@),
            views == spec_split(line@, 32),
            line@.len() != 0,
            forall|rest: Seq<Seq<u8>>|
                parse_vocab_entries(views, k as int) == Some(rest)
                    ==> #[trigger] parse_vocab_entries(views, 0) == Some(vocab_views(out@) + rest),
            parse_vocab_entries(views, k as int) is None ==> parse_vocab_entries(views, 0) is None,
        decreases entries@.len() - k,
    {
        proof {
            assert(views[k as int] == entries@[k as int]@);
        }
        match parse_vocab_entry_vec(&entries[k], k) {
            None => {
                proof {
                    assert(parse_vocab_entries(views, k as int) is None);
                }
                return None;
            },
            Some(e) => {
                let ghost out0 = vocab_views(out@);
                let ghost ev = e@;
                out.push(e);
                proof {
                    assert(vocab_views(out@) =~= out0.push(ev));
                    assert forall|rest: Seq<Seq<u8>>|
                        parse_vocab_entries(views, k + 1) == Some(rest) implies #[trigger] parse_vocab_entries(
                        views,
                        0,
                    ) == Some(vocab_views(out@) + rest) by {
                        assert(parse_vocab_entries(views, k as int) == Some(seq![ev] + rest));
                        assert(out0 + (seq![ev] + rest) =~= vocab_views(out@) + rest);
                    }
                }
            },
        }
        k = k + 1;
    }
    proof {
        assert(parse_vocab_entries(views, k as int) == Some(Seq::<Seq<u8>>::empty()));
        assert(vocab_views(out@) + Seq::<Seq<u8>>::empty() =~= vocab_views(out@));
    }
    Some(out)
}

impl BasicTokenizer {
    /// Writes the model in its flat four-line text form.
    pub fn save_str(&self) -> (r: String)
        requires
            self.wf(),
        ensures
            encode_utf8(r@) == spec_save_bytes(
                self.vocab_size,
                self.num_merges,
                self.merges@,
                vocab_views(self.vocab@),
            ),
    {
        let ghost target = spec_save_bytes(
            self.vocab_size,
            self.num_merges,
            self.merges@,
            vocab_views(self.vocab@),
        );
        let mut out: Vec<u8> = Vec::new();
        push_u32(&mut out, self.vocab_size);
        out.push(10);
        push_u32(&mut out, self.num_merges);
        out.push(10);
        let rl = build_rules_line(&self.merges);
        append_bytes(&mut out, &rl);
        out.push(10);
        let vl = build_vocab_line(&self.vocab);
        append_bytes(&mut out, &vl);
        proof {
            assert(out@ =~= target);
            lemma_save_ascii(
                self.vocab_size,
                self.num_merges,
                self.merges@,
                vocab_views(self.vocab@),
            );
            assert forall|t: int| 0 <= t < out@.len() implies #[trigger] is_leading_byte_width_1(
                out@[t],
            ) by {
                assert(out@[t] < 128);
            }
            assert(out@.subrange(0, 0) =~= Seq::<u8>::empty());
            assert(partial_valid_utf8(out@, 0));
            partial_valid_utf8_extend_ascii_block(out@, 0, out@.len() as int);
            assert(out@.subrange(0, out@.len() as int) =~= out@);
            assert(valid_utf8(out@));
        }
        let ghost ob = out@;
        match bytes_into_string(out) {
            Some(s) => {
                proof {
                    decode_utf8_encode_utf8(ob);
                }
                s
            },
            None => {
                proof {
                    assert(false);
                }
                String::new()
            },
        }
    }

    /// Reads a model from its flat four-line text form. Returns `Ok`
    /// exactly when the text is in the format and describes a well-formed
    /// model; nothing partial is ever returned.
    pub fn load(text: &String) -> (r: Result<BasicTokenizer, ParseError>)
        ensures
            r is Ok <==> spec_parse(encode_utf8(text@)) is Some,
            r matches Ok(m) ==> spec_parse(encode_utf8(text@)) == Some(
                (m.vocab_size, m.num_merges, m.merges@, vocab_views(m.vocab@)),
            ) && m.wf() && m.trained,
    {
        let bytes = text_bytes(text);
        let lines = split_bytes(&bytes, 10);
        let ghost lviews = vocab_views(lines@);
        proof {
            assert(lviews.len() == lines@.len());
        }
        if lines.len() != 4 {
            return Err(ParseError);
        }
        proof {
            assert(lviews[0] == lines@[0]@);
            assert(lviews[1] == lines@[1]@);
            assert(lviews[2] == lines@[2]@);
            assert(lviews[3] == lines@[3]@);
        }
        let vs = match parse_u32_bytes(&lines[0]) {
            Some(v) => v,
            None => {
                return Err(ParseError);
            },
        };
        let nm = match parse_u32_bytes(&lines[1]) {
            Some(v) => v,
            None => {
                return Err(ParseError);
            },
        };
        let merges = match parse_rules_vec(&lines[2]) {
            Some(v) => v,
            None => {
                return Err(ParseError);
            },
        };
        let vocab = match parse_vocab_vec(&lines[3]) {
            Some(v) => v,
            None => {
                return Err(ParseError);
            },
        };
        let m = BasicTokenizer { trained: true, vocab_size: vs, num_merges: nm, merges, vocab };
        if m.check_wf() {
            proof {
                assert(vocab_views(m.vocab@).len() == m.vocab@.len());
                assert forall|id: int| 0 <= id < vocab_views(m.vocab@).len() implies #[trigger] vocab_views(
                    m.vocab@,
                )[id] == expand(m.merges@, id as u32) by {
                    assert(vocab_views(m.vocab@)[id] == m.vocab@[id]@);
                }
                assert(parts_ok(vs, nm, m.merges@, vocab_views(m.vocab@)));
            }
            Ok(m)
        } else {
            proof {
                if parts_ok(vs, nm, m.merges@, vocab_views(m.vocab@)) {
                    assert forall|id: int| 0 <= id < m.vocab@.len() implies (
                    #[trigger] m.vocab@[id])@ == expand(m.merges@, id as u32) by {
                        assert(vocab_views(m.vocab@)[id] == m.vocab@[id]@);
                    }
                    assert(m.wf());
                }
            }
            Err(ParseError)
        }
    }

    /// Replaces this model with one read from the flat text form; on any
    /// parse failure the model is left untouched.
    pub fn load_mut(&mut self, text: &String) -> (r: Result<(), ParseError>)
        ensures
            r is Ok <==> spec_parse(encode_utf8(text@)) is Some,
            r is Ok ==> spec_parse(encode_utf8(text@)) == Some(
                (
                    final (self).vocab_size,
                    final (self).num_merges,
                    final (self).merges@,
                    vocab_views(final (self).vocab@),
                ),
            ) && final (self).wf() && final (self).trained,
            r is Err ==> *final (self) == *old(self),
    {
        match Self::load(text) {
            Ok(m) => {
                *self = m;
                Ok(())
            },
            Err(e) => Err(e),
        }
    }
}

/// The persistence round trip: a well-formed model, written out with
/// `save_str` and read back with `load`, comes back with identical
/// vocabulary size, merge count, merge table and vocabulary.
pub proof fn lemma_save_load_round_trip(m: BasicTokenizer)
    requires
        m.wf(),
    ensures
        spec_parse(spec_save_bytes(m.vocab_size, m.num_merges, m.merges@, vocab_views(m.vocab@)))
            == Some((m.vocab_size, m.num_merges, m.merges@, vocab_views(m.vocab@))),
{
    assert forall|id: int| 0 <= id < vocab_views(m.vocab@).len() implies #[trigger] vocab_views(
        m.vocab@,
    )[id] == expand(m.merges@, id as u32) by {
        assert(vocab_views(m.vocab@)[id] == m.vocab@[id]@);
    }
    assert(parts_ok(m.vocab_size, m.num_merges, m.merges@, vocab_views(m.vocab@)));
    lemma_parse_save(m.vocab_size, m.num_merges, m.merges@, vocab_views(m.vocab@));
}

} // verus!
