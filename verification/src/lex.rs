use vstd::prelude::*;

use crate::pretty_print::{dec_digits, digit_char};

verus! {

/// What kind of token was read from the source text.
#[derive(Debug, PartialEq, Eq)]
pub enum TokenKind {
    Ch,
    Tch,
    Sc,
    Fpsc,
    Bpsc,
    Blsc,
    Inc,
    Flinc,
    Blinc,
    Dec,
    /// The two-word keyword `in mr`.
    InMr,
    /// A non-negative integer literal.
    Number(u32),
    Newline,
    LBracket,
    RBracket,
    Comma,
    /// The trimmed text between two `%` markers.
    Comment(String),
    /// The keyword `skip`.
    Skip,
}

/// The mathematical image of a token kind.
#[verifier::ext_equal]
pub enum TokenKindV {
    Ch,
    Tch,
    Sc,
    Fpsc,
    Bpsc,
    Blsc,
    Inc,
    Flinc,
    Blinc,
    Dec,
    InMr,
    Number(nat),
    Newline,
    LBracket,
    RBracket,
    Comma,
    Comment(Seq<char>),
    Skip,
}

impl View for TokenKind {
    type V = TokenKindV;

    open spec fn view(&self) -> TokenKindV {
        match self {
            TokenKind::Ch => TokenKindV::Ch,
            TokenKind::Tch => TokenKindV::Tch,
            TokenKind::Sc => TokenKindV::Sc,
            TokenKind::Fpsc => TokenKindV::Fpsc,
            TokenKind::Bpsc => TokenKindV::Bpsc,
            TokenKind::Blsc => TokenKindV::Blsc,
            TokenKind::Inc => TokenKindV::Inc,
            TokenKind::Flinc => TokenKindV::Flinc,
            TokenKind::Blinc => TokenKindV::Blinc,
            TokenKind::Dec => TokenKindV::Dec,
            TokenKind::InMr => TokenKindV::InMr,
            TokenKind::Number(n) => TokenKindV::Number(*n as nat),
            TokenKind::Newline => TokenKindV::Newline,
            TokenKind::LBracket => TokenKindV::LBracket,
            TokenKind::RBracket => TokenKindV::RBracket,
            TokenKind::Comma => TokenKindV::Comma,
            TokenKind::Comment(s) => TokenKindV::Comment(s@),
            TokenKind::Skip => TokenKindV::Skip,
        }
    }
}

impl Clone for TokenKind {
    /// A clone carries the same kind, payload included.
    fn clone(&self) -> (r: TokenKind)
        ensures
            r == *self,
    {
        match self {
            TokenKind::Ch => TokenKind::Ch,
            TokenKind::Tch => TokenKind::Tch,
            TokenKind::Sc => TokenKind::Sc,
            TokenKind::Fpsc => TokenKind::Fpsc,
            TokenKind::Bpsc => TokenKind::Bpsc,
            TokenKind::Blsc => TokenKind::Blsc,
            TokenKind::Inc => TokenKind::Inc,
            TokenKind::Flinc => TokenKind::Flinc,
            TokenKind::Blinc => TokenKind::Blinc,
            TokenKind::Dec => TokenKind::Dec,
            TokenKind::InMr => TokenKind::InMr,
            TokenKind::Number(n) => TokenKind::Number(*n),
            TokenKind::Newline => TokenKind::Newline,
            TokenKind::LBracket => TokenKind::LBracket,
            TokenKind::RBracket => TokenKind::RBracket,
            TokenKind::Comma => TokenKind::Comma,
            TokenKind::Comment(s) => TokenKind::Comment(s.clone()),
            TokenKind::Skip => TokenKind::Skip,
        }
    }
}

/// A token together with the 1-based line and column of its first character.
#[derive(Debug, PartialEq, Eq)]
pub struct Token {
    pub kind: TokenKind,
    pub line: usize,
    pub col: usize,
}

/// The mathematical image of a token.
#[verifier::ext_equal]
pub struct TokenV {
    pub kind: TokenKindV,
    pub line: int,
    pub col: int,
}

impl View for Token {
    type V = TokenV;

    open spec fn view(&self) -> TokenV {
        TokenV { kind: self.kind@, line: self.line as int, col: self.col as int }
    }
}

impl Clone for Token {
    /// A clone carries the same kind and position.
    fn clone(&self) -> (r: Token)
        ensures
            r == *self,
    {
        Token { kind: self.kind.clone(), line: self.line, col: self.col }
    }
}

impl Token {
    /// The kind of this token.
    pub fn kind(&self) -> (k: TokenKind)
        ensures
            k == self.kind,
    {
        self.kind.clone()
    }

    /// The 1-based `(line, column)` of the token's first character.
    pub fn source_loc(&self) -> (r: (usize, usize))
        ensures
            r == (self.line, self.col),
    {
        (self.line, self.col)
    }
}

/// A point of the scan: the characters not yet consumed, and the 1-based line
/// and column of the first of them.
#[verifier::ext_equal]
pub struct ScanV {
    pub rest: Seq<char>,
    pub line: int,
    pub col: int,
}

/// Consuming one character advances the column, or the line on a newline.
pub open spec fn advance1(sc: ScanV) -> ScanV {
    if sc.rest.len() == 0 {
        sc
    } else if sc.rest[0] == '\n' {
        ScanV { rest: sc.rest.skip(1), line: sc.line + 1, col: 1 }
    } else {
        ScanV { rest: sc.rest.skip(1), line: sc.line, col: sc.col + 1 }
    }
}

/// Consuming `n` characters, one at a time.
pub open spec fn advance(sc: ScanV, n: int) -> ScanV
    decreases n,
{
    if n <= 0 {
        sc
    } else {
        advance(advance1(sc), n - 1)
    }
}

/// The characters skipped before every token: space and tab, but not newline.
pub open spec fn is_blank(c: char) -> bool {
    c == ' ' || c == '\t'
}

/// The scan position after skipping blanks.
pub open spec fn skip_blanks(sc: ScanV) -> ScanV
    decreases sc.rest.len(),
{
    if sc.rest.len() > 0 && is_blank(sc.rest[0]) {
        skip_blanks(advance1(sc))
    } else {
        sc
    }
}

/// The single-character structural tokens.
pub open spec fn symbol_kind(c: char) -> Option<TokenKindV> {
    if c == '\n' {
        Some(TokenKindV::Newline)
    } else if c == '[' {
        Some(TokenKindV::LBracket)
    } else if c == ']' {
        Some(TokenKindV::RBracket)
    } else if c == ',' {
        Some(TokenKindV::Comma)
    } else {
        None
    }
}

/// Reading a structural symbol at the scan position.
pub open spec fn scan_symbol(sc: ScanV) -> Option<(TokenV, ScanV)> {
    if sc.rest.len() > 0 {
        match symbol_kind(sc.rest[0]) {
            Some(k) => Some(
                (TokenV { kind: k, line: sc.line, col: sc.col }, advance1(sc)),
            ),
            None => None,
        }
    } else {
        None
    }
}

/// `p` is an initial segment of `s`.
pub open spec fn is_prefix(p: Seq<char>, s: Seq<char>) -> bool {
    p.len() <= s.len() && (forall|i: int| 0 <= i < p.len() ==> p[i] == s[i])
}

/// The token produced by a keyword match of `w` characters.
pub open spec fn keyword_token(sc: ScanV, k: TokenKindV, w: Seq<char>) -> Option<(TokenV, ScanV)> {
    Some((TokenV { kind: k, line: sc.line, col: sc.col }, advance(sc, w.len() as int)))
}

/// Reading a keyword at the scan position.
///
/// The candidates are tried longest first, so that a keyword is never
/// shadowed by a shorter one with the same leading characters; `in mr` is a
/// single two-word keyword.
pub open spec fn scan_keyword(sc: ScanV) -> Option<(TokenV, ScanV)> {
    let r = sc.rest;
    if is_prefix("in mr"@, r) {
        keyword_token(sc, TokenKindV::InMr, "in mr"@)
    } else if is_prefix("blinc"@, r) {
        keyword_token(sc, TokenKindV::Blinc, "blinc"@)
    } else if is_prefix("flinc"@, r) {
        keyword_token(sc, TokenKindV::Flinc, "flinc"@)
    } else if is_prefix("fpsc"@, r) {
        keyword_token(sc, TokenKindV::Fpsc, "fpsc"@)
    } else if is_prefix("bpsc"@, r) {
        keyword_token(sc, TokenKindV::Bpsc, "bpsc"@)
    } else if is_prefix("blsc"@, r) {
        keyword_token(sc, TokenKindV::Blsc, "blsc"@)
    } else if is_prefix("skip"@, r) {
        keyword_token(sc, TokenKindV::Skip, "skip"@)
    } else if is_prefix("inc"@, r) {
        keyword_token(sc, TokenKindV::Inc, "inc"@)
    } else if is_prefix("dec"@, r) {
        keyword_token(sc, TokenKindV::Dec, "dec"@)
    } else if is_prefix("tch"@, r) {
        keyword_token(sc, TokenKindV::Tch, "tch"@)
    } else if is_prefix("sc"@, r) {
        keyword_token(sc, TokenKindV::Sc, "sc"@)
    } else if is_prefix("ch"@, r) {
        keyword_token(sc, TokenKindV::Ch, "ch"@)
    } else {
        None
    }
}

/// A decimal digit.
pub open spec fn is_digit(c: char) -> bool {
    48 <= c as int && c as int <= 57
}

/// The length of the maximal run of decimal digits opening `s`.
pub open spec fn digit_run(s: Seq<char>) -> int
    decreases s.len(),
{
    if s.len() > 0 && is_digit(s[0]) {
        1 + digit_run(s.skip(1))
    } else {
        0
    }
}

/// The value of a run of decimal digits, most significant first.
pub open spec fn digits_val(s: Seq<char>) -> int
    decreases s.len(),
{
    if s.len() == 0 {
        0
    } else {
        digits_val(s.drop_last()) * 10 + (s.last() as int - 48)
    }
}

/// Reading an integer literal at the scan position.
///
/// Any leading digit is allowed, a leading zero included. A digit run whose
/// value does not fit in a `u32` yields no token, and the scan position is
/// left at the start of the run, where the failure is then reported.
pub open spec fn scan_number(sc: ScanV) -> Option<(TokenV, ScanV)> {
    let n = digit_run(sc.rest);
    if n == 0 {
        None
    } else if digits_val(sc.rest.take(n)) > u32::MAX {
        None
    } else {
        Some(
            (
                TokenV {
                    kind: TokenKindV::Number(digits_val(sc.rest.take(n)) as nat),
                    line: sc.line,
                    col: sc.col,
                },
                advance(sc, n),
            ),
        )
    }
}

/// The whitespace trimmed from a comment's payload.
pub open spec fn is_space(c: char) -> bool {
    c == ' ' || c == '\t' || c == '\n' || c == '\r'
}

/// `s` without leading whitespace.
pub open spec fn trim_front(s: Seq<char>) -> Seq<char>
    decreases s.len(),
{
    if s.len() > 0 && is_space(s[0]) {
        trim_front(s.skip(1))
    } else {
        s
    }
}

/// `s` without trailing whitespace.
pub open spec fn trim_back(s: Seq<char>) -> Seq<char>
    decreases s.len(),
{
    if s.len() > 0 && is_space(s.last()) {
        trim_back(s.drop_last())
    } else {
        s
    }
}

/// `s` without surrounding whitespace.
pub open spec fn trimmed(s: Seq<char>) -> Seq<char> {
    trim_front(trim_back(s))
}

/// The index of the first `%` in `s`, or a negative value if there is none.
pub open spec fn percent_pos(s: Seq<char>) -> int
    decreases s.len(),
{
    if s.len() == 0 {
        -1
    } else if s[0] == '%' {
        0
    } else {
        let p = percent_pos(s.skip(1));
        if p < 0 {
            -1
        } else {
            p + 1
        }
    }
}

/// Reading a delimited comment at the scan position.
///
/// The comment opens and closes with `%`; the payload is the enclosed text,
/// trimmed of surrounding whitespace. Without a closing `%` no token is
/// produced and nothing is consumed, so the failure is reported at the
/// opening `%`.
pub open spec fn scan_comment(sc: ScanV) -> Option<(TokenV, ScanV)> {
    if sc.rest.len() > 0 && sc.rest[0] == '%' {
        let body = sc.rest.skip(1);
        let p = percent_pos(body);
        if p < 0 {
            None
        } else {
            Some(
                (
                    TokenV {
                        kind: TokenKindV::Comment(trimmed(body.take(p))),
                        line: sc.line,
                        col: sc.col,
                    },
                    advance(sc, p + 2),
                ),
            )
        }
    } else {
        None
    }
}

/// A comment payload as the lexer produces it: free of `%` and carrying no
/// surrounding whitespace.
pub open spec fn comment_ok(s: Seq<char>) -> bool {
    (forall|k: int| 0 <= k < s.len() ==> s[k] != '%') && trimmed(s) == s
}

pub proof fn lemma_trim_back_len(s: Seq<char>)
    ensures
        trim_back(s).len() <= s.len(),
        trim_back(s) == s.take(trim_back(s).len() as int),
    decreases s.len(),
{
    if s.len() > 0 && is_space(s.last()) {
        lemma_trim_back_len(s.drop_last());
        assert(s.drop_last().take(trim_back(s.drop_last()).len() as int) =~= s.take(
            trim_back(s).len() as int,
        ));
    } else {
        assert(s.take(s.len() as int) =~= s);
    }
}

pub proof fn lemma_trim_front_len(s: Seq<char>)
    ensures
        trim_front(s).len() <= s.len(),
        trim_front(s) == s.skip(s.len() - trim_front(s).len()),
    decreases s.len(),
{
    if s.len() > 0 && is_space(s[0]) {
        lemma_trim_front_len(s.skip(1));
        assert(s.skip(1).skip(s.skip(1).len() - trim_front(s.skip(1)).len()) =~= s.skip(
            s.len() - trim_front(s).len(),
        ));
    } else {
        assert(s.skip(0) =~= s);
    }
}

/// A payload equal to its own trimming is left alone by either trim.
pub proof fn lemma_trimmed_fixed(s: Seq<char>)
    requires
        trimmed(s) == s,
    ensures
        trim_back(s) == s,
        trim_front(s) == s,
        s.len() > 0 ==> !is_space(s[0]),
        s.len() > 0 ==> !is_space(s.last()),
{
    lemma_trim_back_len(s);
    lemma_trim_front_len(trim_back(s));
    assert(trim_front(trim_back(s)).len() <= trim_back(s).len() <= s.len());
    assert(trim_back(s).len() == s.len());
    assert(s.take(s.len() as int) =~= s);
    if s.len() > 0 && is_space(s.last()) {
        lemma_trim_back_len(s.drop_last());
        assert(false);
    }
    if s.len() > 0 && is_space(s[0]) {
        lemma_trim_front_len(s.skip(1));
        assert(false);
    }
    lemma_trim_front_len(s);
    assert(s.skip(0) =~= s);
}

/// The trimming the lexer applies to a rendered comment body gives back the
/// payload.
pub proof fn lemma_trim_wrapped(s: Seq<char>)
    requires
        trimmed(s) == s,
    ensures
        trimmed(seq![' '] + s + seq![' ']) == s,
{
    lemma_trimmed_fixed(s);
    let w = seq![' '] + s + seq![' '];
    assert(w.last() == ' ');
    assert(w.drop_last() =~= seq![' '] + s);
    if s.len() == 0 {
        assert(trim_back(w) == trim_back(seq![' '] + s));
        assert(seq![' '] + s =~= seq![' ']);
        assert((seq![' ']).last() == ' ');
        assert((seq![' ']).drop_last() =~= Seq::<char>::empty());
        assert(trim_back(Seq::<char>::empty()) =~= Seq::<char>::empty());
        assert(trim_back(seq![' ']) =~= Seq::<char>::empty());
        assert(trim_front(Seq::<char>::empty()) =~= Seq::<char>::empty());
        assert(s =~= Seq::<char>::empty());
    } else {
        assert(trim_back(w) == trim_back(seq![' '] + s));
        assert((seq![' '] + s).last() == s.last());
        assert(trim_back(seq![' '] + s) == seq![' '] + s);
        assert((seq![' '] + s)[0] == ' ');
        assert((seq![' '] + s).skip(1) =~= s);
        assert(trim_front(seq![' '] + s) == trim_front(s));
    }
}

/// The decimal text of `n` holds digits only and reads back as `n`.
pub proof fn lemma_dec_digits_value(n: int)
    requires
        n >= 0,
    ensures
        dec_digits(n).len() >= 1,
        forall|k: int| 0 <= k < dec_digits(n).len() ==> is_digit(#[trigger] dec_digits(n)[k]),
        digits_val(dec_digits(n)) == n,
    decreases n,
{
    if n < 10 {
        assert(dec_digits(n) =~= seq![digit_char(n)]);
        assert(is_digit(digit_char(n)));
        assert(dec_digits(n).drop_last() =~= Seq::<char>::empty());
        assert(digits_val(Seq::<char>::empty()) == 0);
        assert(digits_val(dec_digits(n)) == digit_char(n) as int - 48);
    } else {
        lemma_dec_digits_value(n / 10);
        assert(dec_digits(n) =~= dec_digits(n / 10) + seq![digit_char(n % 10)]);
        assert(dec_digits(n).drop_last() =~= dec_digits(n / 10));
        assert(dec_digits(n).last() == digit_char(n % 10));
        assert(0 <= n % 10 < 10);
        assert(digit_char(n % 10) as int - 48 == n % 10);
        assert(digits_val(dec_digits(n)) == digits_val(dec_digits(n / 10)) * 10 + n % 10);
        assert(n / 10 * 10 + n % 10 == n) by {
            vstd::arithmetic::div_mod::lemma_fundamental_div_mod(n, 10);
        }
    }
}

/// What the lexer guarantees of every token it yields: a literal fits in a
/// `u32`, and a comment payload is free of `%` and of surrounding
/// whitespace.
pub open spec fn wf_token(t: TokenV) -> bool {
    match t.kind {
        TokenKindV::Number(n) => n <= u32::MAX,
        TokenKindV::Comment(s) => comment_ok(s),
        _ => true,
    }
}

proof fn lemma_trim_result_props(s: Seq<char>)
    ensures
        trim_front(s).len() > 0 ==> !is_space(trim_front(s)[0]),
        trim_back(s).len() > 0 ==> !is_space(trim_back(s).last()),
    decreases s.len(),
{
    if s.len() > 0 {
        lemma_trim_result_props(s.skip(1));
        lemma_trim_result_props(s.drop_last());
    }
}

/// Trimming yields a payload that is its own trimming and keeps only
/// characters of the original.
proof fn lemma_trimmed_props(x: Seq<char>)
    requires
        forall|k: int| 0 <= k < x.len() ==> x[k] != '%',
    ensures
        comment_ok(trimmed(x)),
{
    let tb = trim_back(x);
    let z = trim_front(tb);
    lemma_trim_back_len(x);
    lemma_trim_front_len(tb);
    lemma_trim_result_props(x);
    lemma_trim_result_props(tb);
    assert(forall|k: int| 0 <= k < tb.len() ==> tb[k] == x.take(tb.len() as int)[k]);
    assert(forall|k: int| 0 <= k < tb.len() ==> #[trigger] tb[k] != '%');
    assert(forall|k: int| 0 <= k < z.len() ==> z[k] == tb.skip(tb.len() - z.len())[k]);
    assert(forall|k: int| 0 <= k < z.len() ==> #[trigger] z[k] != '%');
    if z.len() > 0 {
        assert(!is_space(z[0]));
        assert(z.last() == tb.last());
        assert(!is_space(z.last()));
        assert(trim_back(z) == z);
        assert(trim_front(z) == z);
    } else {
        assert(trim_back(z) == z);
        assert(trim_front(z) == z);
    }
    assert(trimmed(z) == z);
}

proof fn lemma_percent_pos_prefix(s: Seq<char>)
    ensures
        forall|k: int| 0 <= k < percent_pos(s) ==> #[trigger] s[k] != '%',
    decreases s.len(),
{
    lemma_percent_pos_range(s);
    if s.len() > 0 && s[0] != '%' {
        lemma_percent_pos_prefix(s.skip(1));
        lemma_percent_pos_range(s.skip(1));
        assert(forall|k: int| 1 <= k < percent_pos(s) ==> #[trigger] s[k] == s.skip(1)[k - 1]);
    }
}

proof fn lemma_digit_run_digits(s: Seq<char>)
    ensures
        forall|k: int| 0 <= k < digit_run(s) ==> is_digit(#[trigger] s[k]),
    decreases s.len(),
{
    lemma_digit_run_le(s);
    if s.len() > 0 && is_digit(s[0]) {
        lemma_digit_run_digits(s.skip(1));
        lemma_digit_run_le(s.skip(1));
        assert(forall|k: int| 1 <= k < digit_run(s) ==> #[trigger] s[k] == s.skip(1)[k - 1]);
    }
}

/// Every token the lexer yields is well formed.
proof fn lemma_scan_token_wf(sc: ScanV)
    ensures
        scan_token(sc) matches Some((t, sc2)) ==> wf_token(t),
{
    let sc1 = skip_blanks(sc);
    if scan_symbol(sc1) is Some {
    } else if scan_keyword(sc1) is Some {
    } else if scan_number(sc1) is Some {
        let n = digit_run(sc1.rest);
        lemma_digit_run_le(sc1.rest);
        lemma_digit_run_digits(sc1.rest);
        assert(forall|k: int| 0 <= k < sc1.rest.take(n).len() ==> is_digit(
            #[trigger] sc1.rest.take(n)[k],
        ));
        lemma_digits_val_nonneg(sc1.rest.take(n));
    } else if scan_comment(sc1) is Some {
        let body = sc1.rest.skip(1);
        let p = percent_pos(body);
        lemma_percent_pos_prefix(body);
        lemma_percent_pos_range(body);
        assert(forall|k: int| 0 <= k < body.take(p).len() ==> #[trigger] body.take(p)[k] != '%');
        lemma_trimmed_props(body.take(p));
    }
}

/// Every token that reading a text yields is well formed.
pub proof fn lemma_scan_all_wf(sc: ScanV)
    ensures
        forall|k: int| 0 <= k < scan_all(sc).0.len() ==> wf_token(#[trigger] scan_all(sc).0[k]),
    decreases sc.rest.len(),
{
    lemma_scan_token_wf(sc);
    lemma_scan_token_advances(sc);
    match scan_token(sc) {
        None => {}
        Some((t, sc2)) => {
            lemma_scan_all_wf(sc2);
            assert(scan_all(sc).0 == seq![t] + scan_all(sc2).0);
            assert(forall|k: int| 1 <= k < scan_all(sc).0.len() ==> #[trigger] scan_all(sc).0[k]
                == scan_all(sc2).0[k - 1]);
        }
    }
}

/// The text of a keyword token kind; empty for kinds that are no keyword.
pub open spec fn kw_text(k: TokenKindV) -> Seq<char> {
    match k {
        TokenKindV::InMr => "in mr"@,
        TokenKindV::Blinc => "blinc"@,
        TokenKindV::Flinc => "flinc"@,
        TokenKindV::Fpsc => "fpsc"@,
        TokenKindV::Bpsc => "bpsc"@,
        TokenKindV::Blsc => "blsc"@,
        TokenKindV::Skip => "skip"@,
        TokenKindV::Inc => "inc"@,
        TokenKindV::Dec => "dec"@,
        TokenKindV::Tch => "tch"@,
        TokenKindV::Sc => "sc"@,
        TokenKindV::Ch => "ch"@,
        _ => Seq::empty(),
    }
}

/// A keyword token kind.
pub open spec fn is_kw_kind(k: TokenKindV) -> bool {
    ||| k is InMr
    ||| k is Blinc
    ||| k is Flinc
    ||| k is Fpsc
    ||| k is Bpsc
    ||| k is Blsc
    ||| k is Skip
    ||| k is Inc
    ||| k is Dec
    ||| k is Tch
    ||| k is Sc
    ||| k is Ch
}

pub(crate) proof fn reveal_keywords()
    ensures
        "in mr"@ =~= seq!['i', 'n', ' ', 'm', 'r'],
        "blinc"@ =~= seq!['b', 'l', 'i', 'n', 'c'],
        "flinc"@ =~= seq!['f', 'l', 'i', 'n', 'c'],
        "fpsc"@ =~= seq!['f', 'p', 's', 'c'],
        "bpsc"@ =~= seq!['b', 'p', 's', 'c'],
        "blsc"@ =~= seq!['b', 'l', 's', 'c'],
        "skip"@ =~= seq!['s', 'k', 'i', 'p'],
        "inc"@ =~= seq!['i', 'n', 'c'],
        "dec"@ =~= seq!['d', 'e', 'c'],
        "tch"@ =~= seq!['t', 'c', 'h'],
        "sc"@ =~= seq!['s', 'c'],
        "ch"@ =~= seq!['c', 'h'],
{
    reveal_strlit("in mr");
    reveal_strlit("blinc");
    reveal_strlit("flinc");
    reveal_strlit("fpsc");
    reveal_strlit("bpsc");
    reveal_strlit("blsc");
    reveal_strlit("skip");
    reveal_strlit("inc");
    reveal_strlit("dec");
    reveal_strlit("tch");
    reveal_strlit("sc");
    reveal_strlit("ch");
}

/// At a rendered keyword, the lexer reads exactly that keyword: every
/// longer candidate differs from it within the keyword's own characters, so
/// what follows cannot change the reading.
#[verifier::rlimit(100)]
pub proof fn lemma_scan_keyword_text(sc: ScanV, k: TokenKindV, tail: Seq<char>)
    requires
        is_kw_kind(k),
        sc.rest == kw_text(k) + tail,
    ensures
        scan_token(sc) == Some(
            (
                TokenV { kind: k, line: sc.line, col: sc.col },
                advance(sc, kw_text(k).len() as int),
            ),
        ),
{
    reveal_keywords();
    assert(sc.rest.len() >= 2);
    assert(sc.rest[0] == kw_text(k)[0]);
    assert(sc.rest[1] == kw_text(k)[1]);
    assert(!is_blank(sc.rest[0]));
    assert(skip_blanks(sc) == sc);
    assert(symbol_kind(sc.rest[0]) is None);
    assert(scan_symbol(sc) is None);
    assert(forall|j: int| 0 <= j < kw_text(k).len() ==> sc.rest[j] == kw_text(k)[j]);
    assert(is_prefix(kw_text(k), sc.rest));
    assert(scan_keyword(sc) == keyword_token(sc, k, kw_text(k)));
}

/// At a rendered structural symbol, the lexer reads exactly that symbol.
pub proof fn lemma_scan_symbol_text(sc: ScanV)
    requires
        sc.rest.len() > 0,
        symbol_kind(sc.rest[0]) is Some,
    ensures
        scan_token(sc) == Some(
            (
                TokenV { kind: symbol_kind(sc.rest[0]).unwrap(), line: sc.line, col: sc.col },
                advance1(sc),
            ),
        ),
{
    assert(!is_blank(sc.rest[0]));
    assert(skip_blanks(sc) == sc);
}

/// At a rendered integer literal followed by no further digit, the lexer
/// reads exactly that literal.
#[verifier::rlimit(100)]
pub proof fn lemma_scan_number_text(sc: ScanV, n: int, tail: Seq<char>)
    requires
        0 <= n <= u32::MAX,
        sc.rest == dec_digits(n) + tail,
        tail.len() > 0 ==> !is_digit(tail[0]),
    ensures
        scan_token(sc) == Some(
            (
                TokenV { kind: TokenKindV::Number(n as nat), line: sc.line, col: sc.col },
                advance(sc, dec_digits(n).len() as int),
            ),
        ),
{
    reveal_keywords();
    lemma_dec_digits_value(n);
    let m = dec_digits(n).len() as int;
    assert(sc.rest.len() >= 1);
    assert(sc.rest[0] == dec_digits(n)[0]);
    assert(is_digit(sc.rest[0]));
    assert(!is_blank(sc.rest[0]));
    assert(skip_blanks(sc) == sc);
    assert(symbol_kind(sc.rest[0]) is None);
    assert(scan_symbol(sc) is None);
    assert(scan_keyword(sc) is None);
    assert(forall|j: int| 0 <= j < m ==> is_digit(#[trigger] sc.rest[j]));
    lemma_digit_run_char(sc.rest, m);
    assert(sc.rest.take(m) =~= dec_digits(n));
    assert(scan_number(sc) is Some);
}

/// At a rendered comment, the lexer reads exactly the comment: the payload
/// carries no `%`, so the first `%` after the opening one is the rendered
/// closing marker, and the padding spaces are trimmed back off.
#[verifier::rlimit(100)]
pub proof fn lemma_scan_comment_text(sc: ScanV, s: Seq<char>, tail: Seq<char>)
    requires
        comment_ok(s),
        sc.rest == seq!['%', ' '] + s + seq![' ', '%'] + tail,
    ensures
        scan_token(sc) == Some(
            (
                TokenV { kind: TokenKindV::Comment(s), line: sc.line, col: sc.col },
                advance(sc, s.len() as int + 4),
            ),
        ),
{
    reveal_keywords();
    assert(sc.rest.len() == s.len() + 4 + tail.len());
    assert(sc.rest[0] == '%');
    assert(!is_blank(sc.rest[0]));
    assert(skip_blanks(sc) == sc);
    assert(symbol_kind(sc.rest[0]) is None);
    assert(scan_symbol(sc) is None);
    assert(scan_keyword(sc) is None);
    assert(!is_digit(sc.rest[0]));
    assert(digit_run(sc.rest) == 0);
    assert(scan_number(sc) is None);
    let body = sc.rest.skip(1);
    let p = s.len() as int + 2;
    assert(body[p] == '%');
    assert(forall|j: int| 0 <= j < p ==> #[trigger] body[j] != '%') by {
        assert(body[0] == ' ');
        assert(body[p - 1] == ' ');
        assert(forall|j: int| 1 <= j < p - 1 ==> body[j] == s[j - 1]);
    }
    lemma_percent_pos_at(body, p);
    assert(body.take(p) =~= seq![' '] + s + seq![' ']);
    lemma_trim_wrapped(s);
    assert(trimmed(body.take(p)) == s);
    assert(scan_comment(sc) is Some);
    assert(scan_comment(sc) == Some(
        (
            TokenV { kind: TokenKindV::Comment(trimmed(body.take(p))), line: sc.line, col: sc.col },
            advance(sc, p + 2),
        ),
    ));
}

/// A leading blank changes nothing of what is read next, nor of anything
/// read after.
pub proof fn lemma_scan_all_blank(sc: ScanV)
    requires
        sc.rest.len() > 0,
        is_blank(sc.rest[0]),
    ensures
        scan_token(sc) == scan_token(advance1(sc)),
        scan_all(sc) == scan_all(advance1(sc)),
{
    assert(skip_blanks(sc) == skip_blanks(advance1(sc)));
}

/// Reading one token splits what `scan_all` yields.
pub proof fn lemma_scan_all_step(sc: ScanV, t: TokenV, sc2: ScanV)
    requires
        scan_token(sc) == Some((t, sc2)),
    ensures
        scan_all(sc).0 == seq![t] + scan_all(sc2).0,
        scan_all(sc).1 == scan_all(sc2).1,
{
}

/// Reading one token: after skipping blanks, the rules are tried in priority
/// order, structural symbols first, then keywords, integer literals, and
/// comments.
pub open spec fn scan_token(sc: ScanV) -> Option<(TokenV, ScanV)> {
    let sc1 = skip_blanks(sc);
    if scan_symbol(sc1) is Some {
        scan_symbol(sc1)
    } else if scan_keyword(sc1) is Some {
        scan_keyword(sc1)
    } else if scan_number(sc1) is Some {
        scan_number(sc1)
    } else {
        scan_comment(sc1)
    }
}

pub proof fn lemma_advance_rest(sc: ScanV, n: int)
    requires
        0 <= n <= sc.rest.len(),
    ensures
        advance(sc, n).rest =~= sc.rest.skip(n),
    decreases n,
{
    if n > 0 {
        lemma_advance_rest(advance1(sc), n - 1);
        assert(advance1(sc).rest.skip(n - 1) =~= sc.rest.skip(n));
    }
}

pub proof fn lemma_skip_blanks_len(sc: ScanV)
    ensures
        skip_blanks(sc).rest.len() <= sc.rest.len(),
    decreases sc.rest.len(),
{
    if sc.rest.len() > 0 && is_blank(sc.rest[0]) {
        lemma_skip_blanks_len(advance1(sc));
    }
}

pub proof fn lemma_digit_run_le(s: Seq<char>)
    ensures
        0 <= digit_run(s) <= s.len(),
    decreases s.len(),
{
    if s.len() > 0 && is_digit(s[0]) {
        lemma_digit_run_le(s.skip(1));
    }
}

pub proof fn lemma_percent_pos_range(s: Seq<char>)
    ensures
        -1 <= percent_pos(s) < s.len(),
        percent_pos(s) >= 0 ==> s[percent_pos(s)] == '%',
    decreases s.len(),
{
    if s.len() > 0 && s[0] != '%' {
        lemma_percent_pos_range(s.skip(1));
    }
}

/// A successful scan of one token consumes at least one character.
pub proof fn lemma_scan_token_advances(sc: ScanV)
    ensures
        scan_token(sc) matches Some((t, sc2)) ==> sc2.rest.len() < sc.rest.len(),
{
    lemma_skip_blanks_len(sc);
    let sc1 = skip_blanks(sc);
    let r = sc1.rest;
    if scan_symbol(sc1) is Some {
    } else if scan_keyword(sc1) is Some {
        if is_prefix("in mr"@, r) {
            lemma_advance_rest(sc1, "in mr"@.len() as int);
        } else if is_prefix("blinc"@, r) {
            lemma_advance_rest(sc1, "blinc"@.len() as int);
        } else if is_prefix("flinc"@, r) {
            lemma_advance_rest(sc1, "flinc"@.len() as int);
        } else if is_prefix("fpsc"@, r) {
            lemma_advance_rest(sc1, "fpsc"@.len() as int);
        } else if is_prefix("bpsc"@, r) {
            lemma_advance_rest(sc1, "bpsc"@.len() as int);
        } else if is_prefix("blsc"@, r) {
            lemma_advance_rest(sc1, "blsc"@.len() as int);
        } else if is_prefix("skip"@, r) {
            lemma_advance_rest(sc1, "skip"@.len() as int);
        } else if is_prefix("inc"@, r) {
            lemma_advance_rest(sc1, "inc"@.len() as int);
        } else if is_prefix("dec"@, r) {
            lemma_advance_rest(sc1, "dec"@.len() as int);
        } else if is_prefix("tch"@, r) {
            lemma_advance_rest(sc1, "tch"@.len() as int);
        } else if is_prefix("sc"@, r) {
            lemma_advance_rest(sc1, "sc"@.len() as int);
        } else if is_prefix("ch"@, r) {
            lemma_advance_rest(sc1, "ch"@.len() as int);
        }
        assert(scan_keyword(sc1) matches Some((t, sc2)) ==> sc2.rest.len() < sc1.rest.len()) by {
            if scan_keyword(sc1) is Some {
                reveal_strlit("in mr");
                reveal_strlit("blinc");
                reveal_strlit("flinc");
                reveal_strlit("fpsc");
                reveal_strlit("bpsc");
                reveal_strlit("blsc");
                reveal_strlit("skip");
                reveal_strlit("inc");
                reveal_strlit("dec");
                reveal_strlit("tch");
                reveal_strlit("sc");
                reveal_strlit("ch");
            }
        }
    } else if scan_number(sc1) is Some {
        lemma_digit_run_le(r);
        lemma_advance_rest(sc1, digit_run(r));
    } else if scan_comment(sc1) is Some {
        lemma_percent_pos_range(r.skip(1));
        lemma_advance_rest(sc1, percent_pos(r.skip(1)) + 2);
    }
}

/// All the tokens that reading from `sc` yields, and the position where
/// reading stops: the end of the text, or the first position where no rule
/// matches.
pub open spec fn scan_all(sc: ScanV) -> (Seq<TokenV>, ScanV)
    decreases sc.rest.len(),
    via scan_all_decreases
{
    match scan_token(sc) {
        None => (Seq::empty(), skip_blanks(sc)),
        Some((t, sc2)) => {
            let r = scan_all(sc2);
            (seq![t] + r.0, r.1)
        }
    }
}

#[via_fn]
proof fn scan_all_decreases(sc: ScanV) {
    lemma_scan_token_advances(sc);
}

pub proof fn lemma_advance_add(sc: ScanV, a: int, b: int)
    requires
        a >= 0,
        b >= 0,
    ensures
        advance(sc, a + b) == advance(advance(sc, a), b),
    decreases a,
{
    if a > 0 {
        lemma_advance_add(advance1(sc), a - 1, b);
    }
}

pub proof fn lemma_advance_snoc(sc: ScanV, n: int)
    requires
        n >= 0,
    ensures
        advance(sc, n + 1) == advance1(advance(sc, n)),
    decreases n,
{
    reveal_with_fuel(advance, 2);
    if n > 0 {
        lemma_advance_snoc(advance1(sc), n - 1);
    }
}

/// Relies on String::push: appending one character at the end.
#[verifier::external_body]
pub(crate) fn push_char(s: &mut String, c: char)
    ensures
        final(s)@ == old(s)@.push(c),
{
    s.push(c);
}

/// The mathematical image of a token stream: the scan position, and the
/// buffered lookahead token if one is held.
#[verifier::ext_equal]
pub struct StreamV {
    pub scan: ScanV,
    pub peeked: Option<TokenV>,
}

/// A lazy, single-pass token stream over a source text, with one-token
/// lookahead.
#[derive(Debug)]
pub struct TokenStream {
    src: Vec<char>,
    pos: usize,
    line: usize,
    col: usize,
    peeked: Option<Token>,
}

impl TokenStream {
    /// Structural validity: the scan position lies within the text, the text
    /// leaves room for position arithmetic, and line and column are 1-based.
    pub closed spec fn wf(&self) -> bool {
        &&& self.pos <= self.src@.len()
        &&& self.src@.len() < usize::MAX
        &&& 1 <= self.line <= self.pos + 1
        &&& 1 <= self.col <= self.pos + 1
    }
}

impl View for TokenStream {
    type V = StreamV;

    closed spec fn view(&self) -> StreamV {
        StreamV {
            scan: ScanV {
                rest: self.src@.skip(self.pos as int),
                line: self.line as int,
                col: self.col as int,
            },
            peeked: match self.peeked {
                Some(t) => Some(t@),
                None => None,
            },
        }
    }
}

impl TokenStream {
    fn peek_char(&self) -> (r: Option<char>)
        requires
            self.wf(),
        ensures
            r == (if self@.scan.rest.len() > 0 {
                Some(self@.scan.rest[0])
            } else {
                None::<char>
            }),
    {
        if self.pos < self.src.len() {
            Some(self.src[self.pos])
        } else {
            None
        }
    }

    fn next_char(&mut self) -> (r: Option<char>)
        requires
            old(self).wf(),
        ensures
            final(self).wf(),
            final(self).src == old(self).src,
            final(self).peeked == old(self).peeked,
            old(self)@.scan.rest.len() == 0 ==> r is None && *final(self) == *old(self),
            old(self)@.scan.rest.len() > 0 ==> r == Some(old(self)@.scan.rest[0])
                && final(self)@.scan == advance1(old(self)@.scan),
    {
        if self.pos < self.src.len() {
            let c = self.src[self.pos];
            if c == '\n' {
                self.line = self.line + 1;
                self.col = 1;
            } else {
                self.col = self.col + 1;
            }
            self.pos = self.pos + 1;
            proof {
                assert(self@.scan.rest =~= old(self)@.scan.rest.skip(1));
                assert(self@.scan =~= advance1(old(self)@.scan));
            }
            Some(c)
        } else {
            None
        }
    }

    fn make_token(&self, kind: TokenKind) -> (t: Token)
        ensures
            t.kind == kind,
            t.line == self.line,
            t.col == self.col,
    {
        Token { kind, line: self.line, col: self.col }
    }

    fn blank_ahead(&self) -> (b: bool)
        requires
            self.wf(),
        ensures
            b == (self@.scan.rest.len() > 0 && is_blank(self@.scan.rest[0])),
    {
        match self.peek_char() {
            Some(c) => c == ' ' || c == '\t',
            None => false,
        }
    }

    fn eat_whitespace(&mut self)
        requires
            old(self).wf(),
        ensures
            final(self).wf(),
            final(self).src == old(self).src,
            final(self).peeked == old(self).peeked,
            final(self)@.scan == skip_blanks(old(self)@.scan),
    {
        while self.blank_ahead()
            invariant
                self.wf(),
                self.src == old(self).src,
                self.peeked == old(self).peeked,
                skip_blanks(self@.scan) == skip_blanks(old(self)@.scan),
            decreases self@.scan.rest.len(),
        {
            let _ = self.next_char();
        }
    }

    fn eat_string(&mut self, w: &str) -> (b: bool)
        requires
            old(self).wf(),
        ensures
            final(self).wf(),
            final(self).src == old(self).src,
            final(self).peeked == old(self).peeked,
            b == is_prefix(w@, old(self)@.scan.rest),
            b ==> final(self)@.scan == advance(old(self)@.scan, w@.len() as int),
            !b ==> *final(self) == *old(self),
    {
        let n = w.unicode_len();
        if n > self.src.len() - self.pos {
            return false;
        }
        let mut i: usize = 0;
        while i < n
            invariant
                0 <= i <= n,
                n == w@.len(),
                n <= self@.scan.rest.len(),
                forall|k: int| 0 <= k < i ==> w@[k] == self@.scan.rest[k],
            decreases n - i,
        {
            let c = w.get_char(i);
            if c != self.src[self.pos + i] {
                return false;
            }
            i = i + 1;
        }
        self.advance_by(n);
        true
    }

    fn advance_by(&mut self, n: usize)
        requires
            old(self).wf(),
            n <= old(self)@.scan.rest.len(),
        ensures
            final(self).wf(),
            final(self).src == old(self).src,
            final(self).peeked == old(self).peeked,
            final(self)@.scan == advance(old(self)@.scan, n as int),
    {
        let mut j: usize = 0;
        while j < n
            invariant
                0 <= j <= n,
                self.wf(),
                self.src == old(self).src,
                self.peeked == old(self).peeked,
                n <= old(self)@.scan.rest.len(),
                self@.scan == advance(old(self)@.scan, j as int),
            decreases n - j,
        {
            proof {
                lemma_advance_rest(old(self)@.scan, j as int);
                lemma_advance_snoc(old(self)@.scan, j as int);
            }
            let _ = self.next_char();
            j = j + 1;
        }
    }

    fn lex_symbol(&mut self) -> (r: Option<Token>)
        requires
            old(self).wf(),
        ensures
            final(self).wf(),
            final(self).src == old(self).src,
            final(self).peeked == old(self).peeked,
            ({
                match scan_symbol(old(self)@.scan) {
                    Some((tv, sc2)) => r matches Some(t) && t@ == tv && final(self)@.scan == sc2,
                    None => r is None && *final(self) == *old(self),
                }
            }),
    {
        let c = match self.peek_char() {
            Some(c) => c,
            None => {
                return None;
            }
        };
        let kind = if c == '\n' {
            TokenKind::Newline
        } else if c == '[' {
            TokenKind::LBracket
        } else if c == ']' {
            TokenKind::RBracket
        } else if c == ',' {
            TokenKind::Comma
        } else {
            return None;
        };
        let t = self.make_token(kind);
        let _ = self.next_char();
        Some(t)
    }

    fn lex_keyword(&mut self) -> (r: Option<Token>)
        requires
            old(self).wf(),
        ensures
            final(self).wf(),
            final(self).src == old(self).src,
            final(self).peeked == old(self).peeked,
            ({
                match scan_keyword(old(self)@.scan) {
                    Some((tv, sc2)) => r matches Some(t) && t@ == tv && final(self)@.scan == sc2,
                    None => r is None && *final(self) == *old(self),
                }
            }),
    {
        let t = self.make_token(TokenKind::InMr);
        if self.eat_string("in mr") {
            return Some(t);
        }
        let t = self.make_token(TokenKind::Blinc);
        if self.eat_string("blinc") {
            return Some(t);
        }
        let t = self.make_token(TokenKind::Flinc);
        if self.eat_string("flinc") {
            return Some(t);
        }
        let t = self.make_token(TokenKind::Fpsc);
        if self.eat_string("fpsc") {
            return Some(t);
        }
        let t = self.make_token(TokenKind::Bpsc);
        if self.eat_string("bpsc") {
            return Some(t);
        }
        let t = self.make_token(TokenKind::Blsc);
        if self.eat_string("blsc") {
            return Some(t);
        }
        let t = self.make_token(TokenKind::Skip);
        if self.eat_string("skip") {
            return Some(t);
        }
        let t = self.make_token(TokenKind::Inc);
        if self.eat_string("inc") {
            return Some(t);
        }
        let t = self.make_token(TokenKind::Dec);
        if self.eat_string("dec") {
            return Some(t);
        }
        let t = self.make_token(TokenKind::Tch);
        if self.eat_string("tch") {
            return Some(t);
        }
        let t = self.make_token(TokenKind::Sc);
        if self.eat_string("sc") {
            return Some(t);
        }
        let t = self.make_token(TokenKind::Ch);
        if self.eat_string("ch") {
            return Some(t);
        }
        None
    }
}

pub(crate) proof fn lemma_digit_run_char(s: Seq<char>, n: int)
    requires
        0 <= n <= s.len(),
        forall|k: int| 0 <= k < n ==> is_digit(s[k]),
        n < s.len() ==> !is_digit(s[n]),
    ensures
        digit_run(s) == n,
    decreases n,
{
    if n == 0 {
    } else {
        lemma_digit_run_char(s.skip(1), n - 1);
    }
}

pub(crate) proof fn lemma_digits_val_nonneg(s: Seq<char>)
    requires
        forall|k: int| 0 <= k < s.len() ==> is_digit(s[k]),
    ensures
        digits_val(s) >= 0,
    decreases s.len(),
{
    if s.len() > 0 {
        lemma_digits_val_nonneg(s.drop_last());
    }
}

proof fn lemma_digits_val_mono(s: Seq<char>, i: int, j: int)
    requires
        0 <= i <= j <= s.len(),
        forall|k: int| 0 <= k < s.len() ==> is_digit(s[k]),
    ensures
        digits_val(s.take(i)) <= digits_val(s.take(j)),
    decreases j - i,
{
    if i < j {
        lemma_digits_val_mono(s, i, j - 1);
        assert(forall|k: int| 0 <= k < j - 1 ==> is_digit(#[trigger] s.take(j - 1)[k]));
        lemma_digits_val_nonneg(s.take(j - 1));
        assert(s.take(j).drop_last() =~= s.take(j - 1));
        assert(digits_val(s.take(j)) == digits_val(s.take(j - 1)) * 10 + (s[j - 1] as int - 48));
    }
}

impl TokenStream {
    fn digit_ahead(&self, k: usize) -> (b: bool)
        requires
            self.wf(),
            k <= self@.scan.rest.len(),
        ensures
            b == (k < self@.scan.rest.len() && is_digit(self@.scan.rest[k as int])),
    {
        if k < self.src.len() - self.pos {
            proof {
                assert(self@.scan.rest.len() == self.src@.len() - self.pos);
                assert(self@.scan.rest[k as int] == self.src@[self.pos + k]);
            }
            let c = self.src[self.pos + k];
            '0' <= c && c <= '9'
        } else {
            proof {
                assert(self@.scan.rest.len() == self.src@.len() - self.pos);
            }
            false
        }
    }

    fn lex_number(&mut self) -> (r: Option<Token>)
        requires
            old(self).wf(),
        ensures
            final(self).wf(),
            final(self).src == old(self).src,
            final(self).peeked == old(self).peeked,
            ({
                match scan_number(old(self)@.scan) {
                    Some((tv, sc2)) => r matches Some(t) && t@ == tv && final(self)@.scan == sc2,
                    None => r is None && *final(self) == *old(self),
                }
            }),
    {
        let ghost rest = self@.scan.rest;
        let mut n: usize = 0;
        while self.digit_ahead(n)
            invariant
                0 <= n <= rest.len(),
                forall|k: int| 0 <= k < n ==> is_digit(rest[k]),
            decreases rest.len() - n,
        {
            n = n + 1;
        }
        proof {
            lemma_digit_run_char(rest, n as int);
        }
        if n == 0 {
            return None;
        }
        let mut val: u32 = 0;
        let mut i: usize = 0;
        while i < n
            invariant
                0 <= i <= n <= rest.len(),
                forall|k: int| 0 <= k < n ==> is_digit(rest[k]),
                val == digits_val(rest.take(i as int)),
            decreases n - i,
        {
            proof {
                assert(self@.scan.rest[i as int] == self.src@[self.pos + i]);
            }
            let d = self.src[self.pos + i] as u32 - 48;
            proof {
                assert(rest.take(i + 1 as int).drop_last() =~= rest.take(i as int));
                assert(rest.take(i + 1 as int).last() == rest[i as int]);
                assert(forall|k: int| 0 <= k < rest.take(n as int).len() ==> is_digit(
                    #[trigger] rest.take(n as int)[k],
                ));
            }
            if val > (u32::MAX - d) / 10 {
                proof {
                    vstd::arithmetic::div_mod::lemma_fundamental_div_mod(
                        u32::MAX - d as int,
                        10,
                    );
                    vstd::arithmetic::div_mod::lemma_mod_bound(u32::MAX - d as int, 10);
                    assert(digits_val(rest.take(i + 1 as int)) > u32::MAX);
                    lemma_digits_val_mono(rest.take(n as int), i + 1 as int, n as int);
                    assert(rest.take(n as int).take(i + 1 as int) =~= rest.take(i + 1 as int));
                    assert(rest.take(n as int).take(n as int) =~= rest.take(n as int));
                }
                return None;
            }
            proof {
                vstd::arithmetic::div_mod::lemma_fundamental_div_mod(u32::MAX - d as int, 10);
                vstd::arithmetic::div_mod::lemma_mod_bound(u32::MAX - d as int, 10);
            }
            val = val * 10 + d;
            i = i + 1;
        }
        proof {
            lemma_digits_val_nonneg(rest.take(n as int));
        }
        let t = self.make_token(TokenKind::Number(val));
        self.advance_by(n);
        Some(t)
    }
}

/// Starts a token stream over the source text, its trailing whitespace
/// removed and its scan position at line 1, column 1.
pub fn tokenize(source: &str) -> (ts: TokenStream)
    requires
        source@.len() < usize::MAX,
    ensures
        ts.wf(),
        ts@ == (StreamV {
            scan: (ScanV { rest: trim_back(source@), line: 1, col: 1 }),
            peeked: None::<TokenV>,
        }),
{
    let n = source.unicode_len();
    let mut v: Vec<char> = Vec::new();
    let mut i: usize = 0;
    while i < n
        invariant
            0 <= i <= n,
            n == source@.len(),
            v@ == source@.take(i as int),
        decreases n - i,
    {
        let c = source.get_char(i);
        v.push(c);
        proof {
            assert(v@ =~= source@.take(i + 1 as int));
        }
        i = i + 1;
    }
    proof {
        assert(v@ =~= source@);
    }
    let mut end: usize = v.len();
    while end > 0 && (v[end - 1] == ' ' || v[end - 1] == '\t' || v[end - 1] == '\n' || v[end - 1]
        == '\r')
        invariant
            0 <= end <= v@.len(),
            v@ == source@,
            trim_back(v@.take(end as int)) == trim_back(v@),
        decreases end,
    {
        proof {
            assert(v@.take(end as int).last() == v@[end - 1]);
            assert(v@.take(end as int).drop_last() =~= v@.take(end - 1 as int));
        }
        end = end - 1;
    }
    proof {
        assert(v@.take(end as int) == trim_back(v@));
    }
    v.truncate(end);
    let ts = TokenStream { src: v, pos: 0, line: 1, col: 1, peeked: None };
    proof {
        assert(ts@.scan.rest =~= ts.src@);
    }
    ts
}

pub(crate) proof fn lemma_percent_pos_at(s: Seq<char>, p: int)
    requires
        0 <= p < s.len(),
        s[p] == '%',
        forall|k: int| 0 <= k < p ==> s[k] != '%',
    ensures
        percent_pos(s) == p,
    decreases p,
{
    if p > 0 {
        lemma_percent_pos_at(s.skip(1), p - 1);
    }
}

proof fn lemma_percent_pos_none(s: Seq<char>)
    requires
        forall|k: int| 0 <= k < s.len() ==> s[k] != '%',
    ensures
        percent_pos(s) == -1,
    decreases s.len(),
{
    if s.len() > 0 {
        lemma_percent_pos_none(s.skip(1));
    }
}

impl TokenStream {
    fn nonpercent_ahead(&self, k: usize) -> (b: bool)
        requires
            self.wf(),
            k <= self@.scan.rest.len(),
        ensures
            b == (k < self@.scan.rest.len() && self@.scan.rest[k as int] != '%'),
    {
        if k < self.src.len() - self.pos {
            self.src[self.pos + k] != '%'
        } else {
            false
        }
    }

    fn space_at(&self, k: usize) -> (b: bool)
        requires
            self.wf(),
            k < self@.scan.rest.len(),
        ensures
            b == is_space(self@.scan.rest[k as int]),
    {
        let c = self.src[self.pos + k];
        c == ' ' || c == '\t' || c == '\n' || c == '\r'
    }

    fn lex_comment(&mut self) -> (r: Option<Token>)
        requires
            old(self).wf(),
        ensures
            final(self).wf(),
            final(self).src == old(self).src,
            final(self).peeked == old(self).peeked,
            ({
                match scan_comment(old(self)@.scan) {
                    Some((tv, sc2)) => r matches Some(t) && t@ == tv && final(self)@.scan == sc2,
                    None => r is None && *final(self) == *old(self),
                }
            }),
    {
        let ghost rest = self@.scan.rest;
        let c0 = match self.peek_char() {
            Some(c) => c,
            None => {
                return None;
            }
        };
        if c0 != '%' {
            return None;
        }
        let ghost body = rest.skip(1);
        let mut q: usize = 1;
        while self.nonpercent_ahead(q)
            invariant
                1 <= q <= rest.len(),
                forall|k: int| 1 <= k < q ==> rest[k] != '%',
            decreases rest.len() - q,
        {
            q = q + 1;
        }
        if q >= self.src.len() - self.pos {
            proof {
                assert(forall|k: int| 0 <= k < body.len() ==> #[trigger] body[k] != '%');
                lemma_percent_pos_none(body);
            }
            return None;
        }
        proof {
            assert(rest[q as int] == '%');
            assert(forall|k: int| 0 <= k < q - 1 ==> #[trigger] body[k] != '%');
            lemma_percent_pos_at(body, q - 1);
        }
        let ghost seg = rest.subrange(1, q as int);
        let mut b: usize = q;
        while b > 1 && self.space_at(b - 1)
            invariant
                1 <= b <= q,
                q < rest.len(),
                trim_back(rest.subrange(1, b as int)) == trim_back(seg),
            decreases b,
        {
            proof {
                assert(rest.subrange(1, b as int).last() == rest[b - 1]);
                assert(rest.subrange(1, b as int).drop_last() =~= rest.subrange(1, b - 1));
            }
            b = b - 1;
        }
        proof {
            assert(rest.subrange(1, b as int) == trim_back(seg));
        }
        let mut a: usize = 1;
        while a < b && self.space_at(a)
            invariant
                1 <= a <= b,
                b <= q < rest.len(),
                trim_front(rest.subrange(a as int, b as int)) == trimmed(seg),
            decreases b - a,
        {
            proof {
                assert(rest.subrange(a as int, b as int)[0] == rest[a as int]);
                assert(rest.subrange(a as int, b as int).skip(1) =~= rest.subrange(a + 1, b as int));
            }
            a = a + 1;
        }
        proof {
            assert(rest.subrange(a as int, b as int) == trimmed(seg));
        }
        let mut payload = String::new();
        let mut k: usize = a;
        while k < b
            invariant
                a <= k <= b,
                b <= q < rest.len(),
                payload@ == rest.subrange(a as int, k as int),
            decreases b - k,
        {
            proof {
                assert(rest[k as int] == self.src@[self.pos + k]);
                assert(rest.subrange(a as int, k as int).push(rest[k as int]) =~= rest.subrange(
                    a as int,
                    k + 1 as int,
                ));
            }
            push_char(&mut payload, self.src[self.pos + k]);
            k = k + 1;
        }
        let t = self.make_token(TokenKind::Comment(payload));
        self.advance_by(q + 1);
        proof {
            assert(body.take(q - 1) =~= seg);
        }
        Some(t)
    }
}

/// What one call of `next` yields and leaves behind: the buffered token if
/// one is held, else the next token read from the scan position; on failure
/// only the blanks before the failing position are consumed.
pub open spec fn stream_next(m: StreamV) -> (Option<TokenV>, StreamV) {
    match m.peeked {
        Some(t) => (Some(t), StreamV { scan: m.scan, peeked: None }),
        None => match scan_token(m.scan) {
            Some((t, sc2)) => (Some(t), StreamV { scan: sc2, peeked: None }),
            None => (None, StreamV { scan: skip_blanks(m.scan), peeked: None }),
        },
    }
}

/// What one call of `peek` yields and leaves behind: as `next`, but the
/// yielded token stays buffered.
pub open spec fn stream_peek(m: StreamV) -> (Option<TokenV>, StreamV) {
    match m.peeked {
        Some(t) => (Some(t), m),
        None => match scan_token(m.scan) {
            Some((t, sc2)) => (Some(t), StreamV { scan: sc2, peeked: Some(t) }),
            None => (None, StreamV { scan: skip_blanks(m.scan), peeked: None }),
        },
    }
}

/// The position that errors at the stream's current state point at: the
/// buffered token's own position if one is held, else the scan position.
pub open spec fn stream_loc(m: StreamV) -> (int, int) {
    match m.peeked {
        Some(t) => (t.line, t.col),
        None => (m.scan.line, m.scan.col),
    }
}

impl TokenStream {
    /// Yields the next token, or nothing when no rule matches at the scan
    /// position or the text is exhausted.
    pub fn next(&mut self) -> (r: Option<Token>)
        requires
            old(self).wf(),
        ensures
            final(self).wf(),
            final(self)@ == stream_next(old(self)@).1,
            ({
                match stream_next(old(self)@).0 {
                    Some(tv) => r matches Some(t) && t@ == tv,
                    None => r is None,
                }
            }),
    {
        let mut taken: Option<Token> = None;
        core::mem::swap(&mut taken, &mut self.peeked);
        if taken.is_some() {
            return taken;
        }
        self.eat_whitespace();
        match self.lex_symbol() {
            Some(t) => {
                return Some(t);
            }
            None => {}
        }
        match self.lex_keyword() {
            Some(t) => {
                return Some(t);
            }
            None => {}
        }
        match self.lex_number() {
            Some(t) => {
                return Some(t);
            }
            None => {}
        }
        match self.lex_comment() {
            Some(t) => {
                return Some(t);
            }
            None => {}
        }
        None
    }

    /// Yields the next token without consuming it; a second call returns the
    /// same token.
    pub fn peek(&mut self) -> (r: Option<Token>)
        requires
            old(self).wf(),
        ensures
            final(self).wf(),
            final(self)@ == stream_peek(old(self)@).1,
            ({
                match stream_peek(old(self)@).0 {
                    Some(tv) => r matches Some(t) && t@ == tv,
                    None => r is None,
                }
            }),
    {
        if self.peeked.is_none() {
            let t = self.next();
            self.peeked = t;
        }
        match &self.peeked {
            Some(t) => Some(t.clone()),
            None => None,
        }
    }

    /// The kind of the next token, without consuming it.
    pub fn peek_kind(&mut self) -> (r: Option<TokenKind>)
        requires
            old(self).wf(),
        ensures
            final(self).wf(),
            final(self)@ == stream_peek(old(self)@).1,
            ({
                match stream_peek(old(self)@).0 {
                    Some(tv) => r matches Some(k) && k@ == tv.kind,
                    None => r is None,
                }
            }),
    {
        match self.peek() {
            Some(t) => Some(t.kind),
            None => None,
        }
    }

    /// Whether the text is fully consumed and no token is buffered.
    ///
    /// After a failed `peek` this can still be false: an unrecognized
    /// character leaves the stream non-empty, which callers turn into a
    /// diagnostic at the current position.
    pub fn is_empty(&self) -> (b: bool)
        requires
            self.wf(),
        ensures
            b == (self@.scan.rest.len() == 0 && self@.peeked is None),
    {
        self.pos == self.src.len() && self.peeked.is_none()
    }

    /// The position of the buffered lookahead token if one is held, else the
    /// scan position.
    pub fn current_loc(&self) -> (r: (usize, usize))
        requires
            self.wf(),
        ensures
            (r.0 as int, r.1 as int) == stream_loc(self@),
    {
        match &self.peeked {
            Some(p) => (p.line, p.col),
            None => (self.line, self.col),
        }
    }
}

} // verus!
