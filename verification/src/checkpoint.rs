//! The persisted checkpoint: a whitespace-separated textual record of the
//! running statistics and the enumeration cursor, parsed leniently (a missing
//! or unparsable field falls back to its default) and saved in a fixed field
//! order that depends on the operating mode.

use vstd::prelude::*;
use crate::codec::{encoded, seed_deck};
use crate::codec::{canonical_seed, clone_hash, get_hash_from_array};
use crate::stats::{RunStatistics, StatsModel};

verus! {

/// Which optional fields the record carries: the combined
/// generate-and-test mode keeps both the suspicious count and the cursor, a
/// test-only run has no cursor, a generate-only run no suspicious count.
#[derive(Copy, Clone, PartialEq, Eq, Structural, Debug)]
pub enum CheckpointMode {
    Combined,
    TestOnly,
    GenerateOnly,
}

/// Mathematical model of a checkpoint: the statistics plus the
/// last-enumerated deck's hash.
pub struct CheckpointModel {
    pub stats: StatsModel,
    pub cursor: Seq<char>,
}

/// A loaded or about-to-be-saved checkpoint: the running statistics and the
/// hash of the last enumerated deck, from which enumeration resumes.
#[derive(Clone, PartialEq, Eq, Debug)]
pub struct CheckpointState {
    pub stats: RunStatistics,
    pub cursor: Vec<char>,
}

impl View for CheckpointState {
    type V = CheckpointModel;

    open spec fn view(&self) -> CheckpointModel {
        CheckpointModel { stats: self.stats@, cursor: self.cursor@ }
    }
}

/// The separator characters of the record format.
pub open spec fn is_ws(c: char) -> bool {
    c == ' ' || c == '\t' || c == '\n' || c == '\r' || c == '\u{0b}' || c == '\u{0c}'
}

/// Length of the maximal separator-free prefix.
pub open spec fn token_len(s: Seq<char>) -> nat
    decreases s.len(),
{
    if s.len() == 0 || is_ws(s[0]) {
        0
    } else {
        1 + token_len(s.drop_first())
    }
}

/// The leading token never reaches past the end of the text.
proof fn lemma_token_len_le(s: Seq<char>)
    ensures
        token_len(s) <= s.len(),
    decreases s.len(),
{
    if s.len() != 0 && !is_ws(s[0]) {
        lemma_token_len_le(s.drop_first());
    }
}

/// The whitespace-separated tokens of a text, in order.
pub open spec fn split_ws(s: Seq<char>) -> Seq<Seq<char>>
    decreases s.len(),
    via split_ws_decreases
{
    if s.len() == 0 {
        Seq::empty()
    } else if is_ws(s[0]) {
        split_ws(s.drop_first())
    } else {
        seq![s.subrange(0, token_len(s) as int)] + split_ws(
            s.subrange(token_len(s) as int, s.len() as int),
        )
    }
}

#[via_fn]
proof fn split_ws_decreases(s: Seq<char>) {
    if s.len() != 0 && !is_ws(s[0]) {
        lemma_token_len_le(s);
        assert(token_len(s) >= 1);
    }
}

/// A string that survives the record format as one token: nonempty and free
/// of separator characters.
pub open spec fn token_ok(s: Seq<char>) -> bool {
    s.len() > 0 && forall|i: int| 0 <= i < s.len() ==> !is_ws(#[trigger] s[i])
}

/// A decimal digit.
pub open spec fn is_digit(c: char) -> bool {
    '0' as u32 <= c as u32 && c as u32 <= '9' as u32
}

/// The value of one digit.
pub open spec fn digit_val(c: char) -> nat {
    (c as u32 - '0' as u32) as nat
}

/// Every character of the string is a digit.
pub open spec fn all_digits(s: Seq<char>) -> bool {
    forall|i: int| 0 <= i < s.len() ==> is_digit(#[trigger] s[i])
}

/// The number a digit string denotes.
pub open spec fn str_val(s: Seq<char>) -> nat
    decreases s.len(),
{
    if s.len() == 0 {
        0
    } else {
        str_val(s.drop_last()) * 10 + digit_val(s.last())
    }
}

/// The character of one digit.
pub open spec fn digit_char(d: nat) -> char {
    if d == 0 {
        '0'
    } else if d == 1 {
        '1'
    } else if d == 2 {
        '2'
    } else if d == 3 {
        '3'
    } else if d == 4 {
        '4'
    } else if d == 5 {
        '5'
    } else if d == 6 {
        '6'
    } else if d == 7 {
        '7'
    } else if d == 8 {
        '8'
    } else {
        '9'
    }
}

/// The decimal digit string of a number, without sign or leading zeros.
pub open spec fn dec_str(n: nat) -> Seq<char>
    decreases n,
{
    if n < 10 {
        seq![digit_char(n)]
    } else {
        dec_str(n / 10).push(digit_char(n % 10))
    }
}

/// Tests one character against the separator set.
fn is_ws_char(c: char) -> (b: bool)
    ensures
        b == is_ws(c),
{
    c == ' ' || c == '\t' || c == '\n' || c == '\r' || c == '\u{0b}' || c == '\u{0c}'
}

/// Parses a token as an unsigned number: `Some` exactly for a nonempty
/// all-digit token whose value fits a machine word.
pub fn parse_usize(s: &Vec<char>) -> (r: Option<usize>)
    ensures
        r is Some <==> (s@.len() > 0 && all_digits(s@) && str_val(s@) <= usize::MAX as nat),
        r matches Some(v) ==> v as nat == str_val(s@),
{
    if s.len() == 0 {
        return None;
    }
    let mut acc: usize = 0;
    let mut i: usize = 0;
    while i < s.len()
        invariant
            i <= s@.len(),
            all_digits(s@.subrange(0, i as int)),
            acc as nat == str_val(s@.subrange(0, i as int)),
        decreases s@.len() - i,
    {
        let c = s[i];
        if (c as u32) < ('0' as u32) || (c as u32) > ('9' as u32) {
            proof {
                assert(!is_digit(s@[i as int]));
            }
            return None;
        }
        let d = (c as u32 - '0' as u32) as usize;
        let ghost prefix = s@.subrange(0, i as int);
        let ghost longer = s@.subrange(0, i + 1);
        proof {
            assert(longer.drop_last() =~= prefix);
            assert(longer.last() == s@[i as int]);
        }
        let step = match acc.checked_mul(10) {
            Some(x) => x.checked_add(d),
            None => None,
        };
        match step {
            Some(v) => {
                acc = v;
            },
            None => {
                proof {
                    assert(str_val(longer) > usize::MAX as nat);
                    lemma_str_val_prefix_monotone(s@, i + 1);
                }
                return None;
            },
        }
        i += 1;
    }
    proof {
        assert(s@.subrange(0, s@.len() as int) =~= s@);
    }
    Some(acc)
}

/// A longer digit prefix never denotes a smaller number.
proof fn lemma_str_val_prefix_monotone(s: Seq<char>, i: int)
    requires
        0 <= i <= s.len(),
    ensures
        str_val(s.subrange(0, i)) <= str_val(s),
    decreases s.len() - i,
{
    if i < s.len() {
        assert(s.subrange(0, i + 1).drop_last() =~= s.subrange(0, i));
        lemma_str_val_prefix_monotone(s, i + 1);
    } else {
        assert(s.subrange(0, i) =~= s);
    }
}

/// Writes one digit.
fn digit_char_of(d: usize) -> (c: char)
    requires
        d < 10,
    ensures
        c == digit_char(d as nat),
{
    match d {
        0 => '0',
        1 => '1',
        2 => '2',
        3 => '3',
        4 => '4',
        5 => '5',
        6 => '6',
        7 => '7',
        8 => '8',
        _ => '9',
    }
}

/// Writes a number as its decimal digit string.
pub fn usize_to_chars(n: usize) -> (r: Vec<char>)
    ensures
        r@ == dec_str(n as nat),
    decreases n,
{
    if n < 10 {
        let mut r: Vec<char> = Vec::new();
        r.push(digit_char_of(n));
        proof {
            assert(r@ =~= dec_str(n as nat));
        }
        r
    } else {
        let mut r = usize_to_chars(n / 10);
        r.push(digit_char_of(n % 10));
        r
    }
}

/// A decimal digit string is a well-formed token of digits.
pub proof fn lemma_dec_str_token(n: nat)
    ensures
        dec_str(n).len() >= 1,
        all_digits(dec_str(n)),
        token_ok(dec_str(n)),
    decreases n,
{
    if n >= 10 {
        lemma_dec_str_token(n / 10);
    }
}

/// A digit written and read back keeps its value.
proof fn lemma_digit_roundtrip(d: nat)
    requires
        d < 10,
    ensures
        digit_val(digit_char(d)) == d,
        is_digit(digit_char(d)),
{
}

/// Reading a written number gives the number back.
pub proof fn lemma_str_val_dec_str(n: nat)
    ensures
        str_val(dec_str(n)) == n,
    decreases n,
{
    if n < 10 {
        lemma_digit_roundtrip(n);
        assert(dec_str(n) == seq![digit_char(n)]);
        assert(dec_str(n).len() == 1);
        assert(dec_str(n).last() == digit_char(n));
        assert(dec_str(n).drop_last() =~= Seq::<char>::empty());
        assert(str_val(dec_str(n)) == str_val(Seq::<char>::empty()) * 10 + digit_val(
            digit_char(n),
        ));
        assert(str_val(Seq::<char>::empty()) == 0);
        assert(str_val(dec_str(n)) == n);
    } else {
        lemma_str_val_dec_str(n / 10);
        lemma_digit_roundtrip(n % 10);
        assert(dec_str(n) == dec_str(n / 10).push(digit_char(n % 10)));
        assert(dec_str(n).len() == dec_str(n / 10).len() + 1);
        assert(dec_str(n).last() == digit_char(n % 10));
        assert(dec_str(n).drop_last() =~= dec_str(n / 10));
        assert(str_val(dec_str(n)) == str_val(dec_str(n / 10)) * 10 + digit_val(
            digit_char(n % 10),
        ));
        vstd::arithmetic::div_mod::lemma_fundamental_div_mod(n as int, 10);
        assert(str_val(dec_str(n)) == n);
    }
}

/// Splits a text into its tokens, starting at position `i`.
fn split_tokens_from(s: &Vec<char>, i: usize) -> (r: Vec<Vec<char>>)
    requires
        i <= s@.len(),
    ensures
        r.deep_view() == split_ws(s@.subrange(i as int, s@.len() as int)),
    decreases s@.len() - i,
{
    let n = s.len();
    let ghost tail = s@.subrange(i as int, n as int);
    if i == n {
        let r: Vec<Vec<char>> = Vec::new();
        proof {
            assert(tail =~= Seq::<char>::empty());
            assert(r.deep_view() =~= split_ws(tail));
        }
        return r;
    }
    if is_ws_char(s[i]) {
        proof {
            assert(tail.drop_first() =~= s@.subrange(i + 1, n as int));
        }
        return split_tokens_from(s, i + 1);
    }
    // Scan to the end of the leading token.
    let mut j = i + 1;
    while j < n && !is_ws_char_at(s, j)
        invariant
            i < j <= n,
            n == s@.len(),
            forall|k: int| i <= k < j ==> !is_ws(#[trigger] s@[k]),
        decreases n - j,
    {
        j += 1;
    }
    proof {
        lemma_token_len_exact(tail, j - i);
        assert(tail.subrange(0, j - i) =~= s@.subrange(i as int, j as int));
        assert(tail.subrange(j - i, tail.len() as int) =~= s@.subrange(j as int, n as int));
    }
    // Copy the token out.
    let mut tok: Vec<char> = Vec::new();
    let mut k = i;
    while k < j
        invariant
            i <= k <= j <= n,
            n == s@.len(),
            tok@ == s@.subrange(i as int, k as int),
        decreases j - k,
    {
        tok.push(s[k]);
        proof {
            assert(tok@ =~= s@.subrange(i as int, k + 1));
        }
        k += 1;
    }
    let ghost tok_view = tok@;
    let mut rest = split_tokens_from(s, j);
    let ghost rest_dv = rest.deep_view();
    let ghost rest_pre = rest@;
    let mut r: Vec<Vec<char>> = Vec::new();
    r.push(tok);
    r.append(&mut rest);
    proof {
        assert forall|t: int| 0 <= t < r@.len() implies r.deep_view()[t] == (seq![tok_view]
            + rest_dv)[t] by {
            if t == 0 {
                assert(r@[0].deep_view() =~= tok_view);
            } else {
                assert(r@[t] == rest_pre[t - 1]);
                assert(rest_dv[t - 1] == rest_pre[t - 1].deep_view());
            }
        }
        assert(r.deep_view() =~= seq![tok_view] + rest_dv);
        assert(r.deep_view() =~= split_ws(tail));
    }
    r
}

/// Tests the character at one position against the separator set.
fn is_ws_char_at(s: &Vec<char>, j: usize) -> (b: bool)
    requires
        j < s@.len(),
    ensures
        b == is_ws(s@[j as int]),
{
    is_ws_char(s[j])
}

/// The leading token is exactly `j` characters long when the first `j`
/// characters are separator-free and a separator or the end follows.
proof fn lemma_token_len_exact(s: Seq<char>, j: int)
    requires
        0 <= j <= s.len(),
        forall|k: int| 0 <= k < j ==> !is_ws(#[trigger] s[k]),
        j == s.len() || is_ws(s[j]),
    ensures
        token_len(s) == j,
    decreases j,
{
    if j == 0 {
    } else {
        assert(!is_ws(s[0]));
        assert forall|k: int| 0 <= k < j - 1 implies !is_ws(#[trigger] s.drop_first()[k]) by {
            assert(s.drop_first()[k] == s[k + 1]);
        }
        lemma_token_len_exact(s.drop_first(), j - 1);
    }
}

/// Splits a text into its whitespace-separated tokens.
pub fn split_tokens(s: &Vec<char>) -> (r: Vec<Vec<char>>)
    ensures
        r.deep_view() == split_ws(s@),
{
    let r = split_tokens_from(s, 0);
    proof {
        assert(s@.subrange(0, s@.len() as int) =~= s@);
    }
    r
}

/// The number the token at position `i` denotes, or the default when the
/// token is missing or unparsable.
pub open spec fn num_or(toks: Seq<Seq<char>>, i: int, default: nat) -> nat {
    if 0 <= i < toks.len() && toks[i].len() > 0 && all_digits(toks[i]) && str_val(toks[i])
        <= usize::MAX as nat {
        str_val(toks[i])
    } else {
        default
    }
}

/// The token at position `i`, or the default when it is missing.
pub open spec fn tok_or(toks: Seq<Seq<char>>, i: int, default: Seq<char>) -> Seq<char> {
    if 0 <= i < toks.len() {
        toks[i]
    } else {
        default
    }
}

/// The state a text loads to: positional fields, each falling back to its
/// default — zero for the maximum, the sentinel for the minimum, zero for
/// the suspicious count, empty hashes, and the canonical seed as cursor.
pub open spec fn load_spec(text: Seq<char>, mode: CheckpointMode) -> CheckpointModel {
    let toks = split_ws(text);
    match mode {
        CheckpointMode::Combined => CheckpointModel {
            stats: StatsModel {
                most_turns: num_or(toks, 0, 0),
                least_turns: num_or(toks, 1, usize::MAX as nat),
                suspicious_games: num_or(toks, 2, 0),
                most_hash: tok_or(toks, 3, Seq::empty()),
                least_hash: tok_or(toks, 4, Seq::empty()),
            },
            cursor: tok_or(toks, 5, encoded(seed_deck())),
        },
        CheckpointMode::TestOnly => CheckpointModel {
            stats: StatsModel {
                most_turns: num_or(toks, 0, 0),
                least_turns: num_or(toks, 1, usize::MAX as nat),
                suspicious_games: num_or(toks, 2, 0),
                most_hash: tok_or(toks, 3, Seq::empty()),
                least_hash: tok_or(toks, 4, Seq::empty()),
            },
            cursor: encoded(seed_deck()),
        },
        CheckpointMode::GenerateOnly => CheckpointModel {
            stats: StatsModel {
                most_turns: num_or(toks, 0, 0),
                least_turns: num_or(toks, 1, usize::MAX as nat),
                suspicious_games: 0,
                most_hash: tok_or(toks, 2, Seq::empty()),
                least_hash: tok_or(toks, 3, Seq::empty()),
            },
            cursor: tok_or(toks, 4, encoded(seed_deck())),
        },
    }
}

/// The record's tokens, in the fixed field order of the mode.
pub open spec fn record_tokens(m: CheckpointModel, mode: CheckpointMode) -> Seq<Seq<char>> {
    match mode {
        CheckpointMode::Combined => seq![
            dec_str(m.stats.most_turns),
            dec_str(m.stats.least_turns),
            dec_str(m.stats.suspicious_games),
            m.stats.most_hash,
            m.stats.least_hash,
            m.cursor,
        ],
        CheckpointMode::TestOnly => seq![
            dec_str(m.stats.most_turns),
            dec_str(m.stats.least_turns),
            dec_str(m.stats.suspicious_games),
            m.stats.most_hash,
            m.stats.least_hash,
        ],
        CheckpointMode::GenerateOnly => seq![
            dec_str(m.stats.most_turns),
            dec_str(m.stats.least_turns),
            m.stats.most_hash,
            m.stats.least_hash,
            m.cursor,
        ],
    }
}

/// Tokens joined by single spaces.
pub open spec fn join_sp(toks: Seq<Seq<char>>) -> Seq<char>
    decreases toks.len(),
{
    if toks.len() == 0 {
        Seq::empty()
    } else if toks.len() == 1 {
        toks[0]
    } else {
        toks[0] + seq![' '] + join_sp(toks.drop_first())
    }
}

/// The text a checkpoint saves to.
pub open spec fn save_spec(m: CheckpointModel, mode: CheckpointMode) -> Seq<char> {
    join_sp(record_tokens(m, mode))
}

/// Builds the canonical seed's hash, the default cursor.
pub fn seed_hash() -> (r: Vec<char>)
    ensures
        r@ == encoded(seed_deck()),
{
    let deck = canonical_seed();
    let mut hash: Vec<char> = Vec::new();
    get_hash_from_array(&deck, &mut hash);
    hash
}

/// Reads the numeric field at token position `i`, falling back to the
/// default when the token is missing or unparsable.
fn num_field(toks: &Vec<Vec<char>>, i: usize, default: usize) -> (r: usize)
    ensures
        r as nat == num_or(toks.deep_view(), i as int, default as nat),
{
    if i < toks.len() {
        proof {
            assert(toks.deep_view()[i as int] =~= toks@[i as int]@);
        }
        match parse_usize(&toks[i]) {
            Some(v) => v,
            None => default,
        }
    } else {
        default
    }
}

/// Reads the token at position `i`, falling back to the default when it is
/// missing.
fn tok_field(toks: &Vec<Vec<char>>, i: usize, default: Vec<char>) -> (r: Vec<char>)
    ensures
        r@ == tok_or(toks.deep_view(), i as int, default@),
{
    if i < toks.len() {
        proof {
            assert(toks.deep_view()[i as int] =~= toks@[i as int]@);
        }
        clone_hash(&toks[i])
    } else {
        default
    }
}

/// Loads a checkpoint from the record text: positional whitespace-separated
/// fields in the order of the mode, a missing or unparsable field replaced
/// by its default, exactly as [`load_spec`] describes.
pub fn load_checkpoint(text: &Vec<char>, mode: CheckpointMode) -> (st: CheckpointState)
    ensures
        st@ == load_spec(text@, mode),
{
    let toks = split_tokens(text);
    let most_turns = num_field(&toks, 0, 0);
    let least_turns = num_field(&toks, 1, usize::MAX);
    match mode {
        CheckpointMode::Combined => {
            let suspicious_games = num_field(&toks, 2, 0);
            let most_hash = tok_field(&toks, 3, Vec::new());
            let least_hash = tok_field(&toks, 4, Vec::new());
            let cursor = tok_field(&toks, 5, seed_hash());
            CheckpointState {
                stats: RunStatistics {
                    most_turns,
                    least_turns,
                    suspicious_games,
                    most_hash,
                    least_hash,
                },
                cursor,
            }
        },
        CheckpointMode::TestOnly => {
            let suspicious_games = num_field(&toks, 2, 0);
            let most_hash = tok_field(&toks, 3, Vec::new());
            let least_hash = tok_field(&toks, 4, Vec::new());
            let cursor = seed_hash();
            CheckpointState {
                stats: RunStatistics {
                    most_turns,
                    least_turns,
                    suspicious_games,
                    most_hash,
                    least_hash,
                },
                cursor,
            }
        },
        CheckpointMode::GenerateOnly => {
            let most_hash = tok_field(&toks, 2, Vec::new());
            let least_hash = tok_field(&toks, 3, Vec::new());
            let cursor = tok_field(&toks, 4, seed_hash());
            CheckpointState {
                stats: RunStatistics {
                    most_turns,
                    least_turns,
                    suspicious_games: 0,
                    most_hash,
                    least_hash,
                },
                cursor,
            }
        },
    }
}

/// Joins the tokens from position `i` on with single spaces.
fn join_from(toks: &Vec<Vec<char>>, i: usize) -> (r: Vec<char>)
    requires
        i <= toks@.len(),
    ensures
        r@ == join_sp(toks.deep_view().subrange(i as int, toks@.len() as int)),
    decreases toks@.len() - i,
{
    let n = toks.len();
    let ghost tail = toks.deep_view().subrange(i as int, n as int);
    if i == n {
        let r: Vec<char> = Vec::new();
        proof {
            assert(tail =~= Seq::<Seq<char>>::empty());
        }
        return r;
    }
    let mut r = clone_hash(&toks[i]);
    proof {
        assert(toks.deep_view()[i as int] =~= toks@[i as int]@);
        assert(tail[0] == toks.deep_view()[i as int]);
    }
    if i + 1 == n {
        return r;
    }
    r.push(' ');
    let mut rest = join_from(toks, i + 1);
    r.append(&mut rest);
    proof {
        assert(tail.drop_first() =~= toks.deep_view().subrange(i + 1, n as int));
        assert(r@ =~= tail[0] + seq![' '] + join_sp(tail.drop_first()));
    }
    r
}

/// Saves a checkpoint as its record text: the fields of the mode, in fixed
/// order, separated by single spaces, exactly as [`save_spec`] describes.
pub fn save_checkpoint(state: &CheckpointState, mode: CheckpointMode) -> (text: Vec<char>)
    ensures
        text@ == save_spec(state@, mode),
{
    let mut toks: Vec<Vec<char>> = Vec::new();
    toks.push(usize_to_chars(state.stats.most_turns));
    toks.push(usize_to_chars(state.stats.least_turns));
    match mode {
        CheckpointMode::Combined | CheckpointMode::TestOnly => {
            toks.push(usize_to_chars(state.stats.suspicious_games));
        },
        CheckpointMode::GenerateOnly => {},
    }
    toks.push(clone_hash(&state.stats.most_hash));
    toks.push(clone_hash(&state.stats.least_hash));
    match mode {
        CheckpointMode::Combined | CheckpointMode::GenerateOnly => {
            toks.push(clone_hash(&state.cursor));
        },
        CheckpointMode::TestOnly => {},
    }
    proof {
        let expected = record_tokens(state@, mode);
        assert(toks@.len() == expected.len());
        assert forall|t: int| 0 <= t < toks@.len() implies toks.deep_view()[t] == expected[t] by {
            assert(toks.deep_view()[t] == toks@[t].deep_view());
            assert(toks@[t].deep_view() =~= toks@[t]@);
        }
        assert(toks.deep_view() =~= record_tokens(state@, mode));
    }
    let text = join_from(&toks, 0);
    proof {
        assert(toks.deep_view().subrange(0, toks@.len() as int) =~= toks.deep_view());
    }
    text
}

/// Skipping one leading separator does not change the tokens.
proof fn lemma_split_skip_ws(c: char, rest: Seq<char>)
    requires
        is_ws(c),
    ensures
        split_ws(seq![c] + rest) == split_ws(rest),
{
    assert((seq![c] + rest).drop_first() =~= rest);
}

/// A leading well-formed token, followed by a separator or the end, is split
/// off whole.
proof fn lemma_split_leading_token(tok: Seq<char>, rest: Seq<char>)
    requires
        token_ok(tok),
        rest.len() == 0 || is_ws(rest[0]),
    ensures
        split_ws(tok + rest) == seq![tok] + split_ws(rest),
{
    let s = tok + rest;
    assert forall|k: int| 0 <= k < tok.len() implies !is_ws(#[trigger] s[k]) by {
        assert(s[k] == tok[k]);
    }
    lemma_token_len_exact(s, tok.len() as int);
    assert(s.subrange(0, tok.len() as int) =~= tok);
    assert(s.subrange(tok.len() as int, s.len() as int) =~= rest);
}

/// Splitting a space-joined list of well-formed tokens gives the list back.
proof fn lemma_split_join(toks: Seq<Seq<char>>)
    requires
        forall|i: int| 0 <= i < toks.len() ==> token_ok(#[trigger] toks[i]),
    ensures
        split_ws(join_sp(toks)) == toks,
    decreases toks.len(),
{
    if toks.len() == 0 {
    } else if toks.len() == 1 {
        lemma_split_leading_token(toks[0], Seq::empty());
        assert(toks[0] + Seq::<char>::empty() =~= toks[0]);
        assert(seq![toks[0]] + split_ws(Seq::empty()) =~= toks);
    } else {
        let rest_text = seq![' '] + join_sp(toks.drop_first());
        assert(join_sp(toks) =~= toks[0] + rest_text);
        lemma_split_leading_token(toks[0], rest_text);
        lemma_split_skip_ws(' ', join_sp(toks.drop_first()));
        lemma_split_join(toks.drop_first());
        assert(seq![toks[0]] + toks.drop_first() =~= toks);
    }
}

/// A checkpoint the record format can carry faithfully: the numeric fields
/// fit a machine word, the hashes are nonempty and free of separators, and
/// the fields a mode omits hold their defaults.
pub open spec fn storable(m: CheckpointModel, mode: CheckpointMode) -> bool {
    &&& m.stats.most_turns <= usize::MAX as nat
    &&& m.stats.least_turns <= usize::MAX as nat
    &&& m.stats.suspicious_games <= usize::MAX as nat
    &&& token_ok(m.stats.most_hash)
    &&& token_ok(m.stats.least_hash)
    &&& match mode {
        CheckpointMode::Combined => token_ok(m.cursor),
        CheckpointMode::TestOnly => m.cursor == encoded(seed_deck()),
        CheckpointMode::GenerateOnly => m.stats.suspicious_games == 0 && token_ok(m.cursor),
    }
}

/// Round-trip law: loading a saved checkpoint reproduces every field of the
/// checkpoint, in every mode, for every storable state.
pub proof fn lemma_checkpoint_round_trip(m: CheckpointModel, mode: CheckpointMode)
    requires
        storable(m, mode),
    ensures
        load_spec(save_spec(m, mode), mode) == m,
{
    let toks = record_tokens(m, mode);
    lemma_dec_str_token(m.stats.most_turns);
    lemma_dec_str_token(m.stats.least_turns);
    lemma_dec_str_token(m.stats.suspicious_games);
    lemma_str_val_dec_str(m.stats.most_turns);
    lemma_str_val_dec_str(m.stats.least_turns);
    lemma_str_val_dec_str(m.stats.suspicious_games);
    lemma_split_join(toks);
}

/// Saving and loading is idempotent: whatever text a checkpoint is first
/// read from, one save-and-load settles it, and saving again writes the same
/// text.
pub proof fn lemma_save_load_idempotent(text: Seq<char>, mode: CheckpointMode)
    requires
        storable(load_spec(text, mode), mode),
    ensures
        save_spec(load_spec(save_spec(load_spec(text, mode), mode), mode), mode) == save_spec(
            load_spec(text, mode),
            mode,
        ),
{
    lemma_checkpoint_round_trip(load_spec(text, mode), mode);
}

} // verus!
