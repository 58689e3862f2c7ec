//! The anonymizer / token extractor: command lines are scanned for sensitive
//! values (user names, secrets, autonomous-system numbers, IP literals),
//! which are replaced by deterministic, human-readable substitutes assigned
//! in first-seen order, and reported as structured captures.
use crate::dialect::{char_eq, word_spans};
use vstd::prelude::*;

verus! {

/// The category of a sensitive value.
#[derive(Clone, Copy, Debug, PartialEq, Eq, Structural)]
pub enum TokenKind {
    Username,
    Secret,
    Asn,
    Ip,
}

impl TokenKind {
    /// The category's wire tag.
    pub fn as_str(self) -> (r: &'static str)
        ensures
            match self {
                TokenKind::Username => r@ == "username"@,
                TokenKind::Secret => r@ == "secret"@,
                TokenKind::Asn => r@ == "asn"@,
                TokenKind::Ip => r@ == "ip"@,
            },
    {
        match self {
            TokenKind::Username => "username",
            TokenKind::Secret => "secret",
            TokenKind::Asn => "asn",
            TokenKind::Ip => "ip",
        }
    }
}

// ---------- character classes and word shapes ----------

pub open spec fn is_digit(c: char) -> bool {
    48 <= c as int <= 57
}

pub open spec fn is_hex_digit(c: char) -> bool {
    is_digit(c) || 97 <= c as int <= 102 || 65 <= c as int <= 70
}

/// Occurrences of `c` in `l`.
pub open spec fn count_of(l: Seq<char>, c: char) -> nat
    decreases l.len(),
{
    if l.len() == 0 {
        0
    } else {
        count_of(l.take(l.len() - 1), c) + if l[l.len() - 1] == c {
            1nat
        } else {
            0nat
        }
    }
}

/// Position of the first occurrence of `c`, or `l.len()`.
pub open spec fn first_at(l: Seq<char>, c: char) -> nat
    decreases l.len(),
{
    if l.len() == 0 {
        0
    } else if l[0] == c {
        0
    } else {
        1 + first_at(l.skip(1), c)
    }
}

pub proof fn lemma_first_at_is(l: Seq<char>, c: char, k: int)
    requires
        0 <= k <= l.len(),
        forall|j: int| 0 <= j < k ==> l[j] != c,
        k == l.len() || l[k] == c,
    ensures
        first_at(l, c) == k,
    decreases k,
{
    if k > 0 {
        assert(l[0] != c);
        assert forall|j: int| 0 <= j < k - 1 implies l.skip(1)[j] != c by {
            assert(l.skip(1)[j] == l[j + 1]);
        }
        lemma_first_at_is(l.skip(1), c, k - 1);
    }
}

/// A non-empty all-digit word.
pub open spec fn is_digits(w: Seq<char>) -> bool {
    w.len() > 0 && forall|j: int| 0 <= j < w.len() ==> is_digit(#[trigger] w[j])
}

/// A dotted-quad shape: three dots separating digit groups.
pub open spec fn is_ipv4_addr(a: Seq<char>) -> bool {
    &&& a.len() > 0
    &&& count_of(a, '.') == 3
    &&& forall|j: int| 0 <= j < a.len() ==> is_digit(#[trigger] a[j]) || a[j] == '.'
    &&& a[0] != '.'
    &&& a[a.len() - 1] != '.'
    &&& forall|j: int| 0 < j < a.len() ==> !(#[trigger] a[j] == '.' && a[j - 1] == '.')
}

/// The address part of a word: everything before the first `/`.
pub open spec fn addr_len(w: Seq<char>) -> nat {
    first_at(w, '/')
}

/// An IPv4 literal, optionally carrying a `/`-prefix length.
pub open spec fn is_ipv4_word(w: Seq<char>) -> bool {
    is_ipv4_addr(w.take(addr_len(w) as int))
}

/// An IPv6-literal shape: hexadecimal digits with at least two colons.
pub open spec fn is_ipv6_word(w: Seq<char>) -> bool {
    &&& w.len() > 0
    &&& count_of(w, ':') >= 2
    &&& forall|j: int| 0 <= j < w.len() ==> is_hex_digit(#[trigger] w[j]) || w[j] == ':'
}

pub open spec fn is_username_kw(w: Seq<char>) -> bool {
    w == "username"@ || w == "user"@
}

pub open spec fn is_secret_kw(w: Seq<char>) -> bool {
    w == "password"@ || w == "secret"@
}

pub open spec fn is_asn_kw(w: Seq<char>) -> bool {
    w == "bgp"@ || w == "remote-as"@ || w == "local-as"@ || w == "peer-as"@
}

// ---------- classification of words ----------

/// The text of word `q` of line `l` under spans `sp`.
pub open spec fn word_of(l: Seq<char>, sp: Seq<(int, int)>, q: int) -> Seq<char> {
    l.subrange(sp[q].0, sp[q].1)
}

/// An encryption-type marker: a single digit between a secret keyword and
/// the secret itself.
pub open spec fn is_enc_marker(w: Seq<char>) -> bool {
    w.len() == 1 && is_digits(w)
}

/// The sensitive category of word `q`, if any: the name after a
/// user-credential keyword, the argument after a secret keyword (one
/// encryption-type digit skipped), a number after an AS keyword, or an
/// IP literal anywhere.
pub open spec fn class_of(l: Seq<char>, sp: Seq<(int, int)>, q: int) -> Option<TokenKind> {
    let w = word_of(l, sp, q);
    if q >= 1 && is_username_kw(word_of(l, sp, q - 1)) {
        Some(TokenKind::Username)
    } else if q >= 1 && is_secret_kw(word_of(l, sp, q - 1)) && !(is_enc_marker(w) && q + 1
        < sp.len()) {
        Some(TokenKind::Secret)
    } else if q >= 2 && is_secret_kw(word_of(l, sp, q - 2)) && is_enc_marker(word_of(l, sp, q - 1)) {
        Some(TokenKind::Secret)
    } else if q >= 1 && is_asn_kw(word_of(l, sp, q - 1)) && is_digits(w) {
        Some(TokenKind::Asn)
    } else if is_ipv4_word(w) || is_ipv6_word(w) {
        Some(TokenKind::Ip)
    } else {
        None
    }
}

/// The reported original value of word `q`: for an IP literal the address
/// part alone, otherwise the whole word.
pub open spec fn original_of(l: Seq<char>, sp: Seq<(int, int)>, q: int) -> Seq<char> {
    let w = word_of(l, sp, q);
    if class_of(l, sp, q) == Some(TokenKind::Ip) && !(is_ipv4_word(w) || is_ipv6_word(w)) {
        w
    } else if class_of(l, sp, q) == Some(TokenKind::Ip) && is_ipv4_word(w) && !is_ipv6_word(w) {
        w.take(addr_len(w) as int)
    } else {
        w
    }
}

// ---------- the anonymizer state ----------

/// One capture: the category, the original value, and the replacement where
/// anonymization is on.
pub struct TokenCapture {
    pub kind: TokenKind,
    pub original: String,
    pub anonymized: Option<String>,
}

/// The mathematical model of one capture.
pub ghost struct CapModel {
    pub kind: TokenKind,
    pub original: Seq<char>,
    pub anonymized: Option<Seq<char>>,
}

impl View for TokenCapture {
    type V = CapModel;

    open spec fn view(&self) -> CapModel {
        CapModel {
            kind: self.kind,
            original: self.original@,
            anonymized: match self.anonymized {
                Some(ref a) => Some(a@),
                None => None,
            },
        }
    }
}

pub open spec fn caps_model(v: Seq<TokenCapture>) -> Seq<CapModel> {
    Seq::new(v.len(), |i: int| v[i]@)
}

/// The model of the anonymizer: one assignment table per category, in
/// first-seen order.
pub ghost struct AnonModel {
    pub users: Seq<(Seq<char>, Seq<char>)>,
    pub secrets: Seq<(Seq<char>, Seq<char>)>,
    pub asns: Seq<(Seq<char>, Seq<char>)>,
    pub ips: Seq<(Seq<char>, Seq<char>)>,
}

/// Run-scoped anonymizer state: per-category assignment tables mapping each
/// original to its replacement.
pub struct Anonymizer {
    pub users: Vec<(String, String)>,
    pub secrets: Vec<(String, String)>,
    pub asns: Vec<(String, String)>,
    pub ips: Vec<(String, String)>,
}

pub open spec fn tbl_model(t: Seq<(String, String)>) -> Seq<(Seq<char>, Seq<char>)> {
    Seq::new(t.len(), |i: int| (t[i].0@, t[i].1@))
}

impl View for Anonymizer {
    type V = AnonModel;

    open spec fn view(&self) -> AnonModel {
        AnonModel {
            users: tbl_model(self.users@),
            secrets: tbl_model(self.secrets@),
            asns: tbl_model(self.asns@),
            ips: tbl_model(self.ips@),
        }
    }
}

pub open spec fn table_of(a: AnonModel, kind: TokenKind) -> Seq<(Seq<char>, Seq<char>)> {
    match kind {
        TokenKind::Username => a.users,
        TokenKind::Secret => a.secrets,
        TokenKind::Asn => a.asns,
        TokenKind::Ip => a.ips,
    }
}

pub open spec fn with_table(a: AnonModel, kind: TokenKind, t: Seq<(Seq<char>, Seq<char>)>)
    -> AnonModel {
    match kind {
        TokenKind::Username => AnonModel { users: t, ..a },
        TokenKind::Secret => AnonModel { secrets: t, ..a },
        TokenKind::Asn => AnonModel { asns: t, ..a },
        TokenKind::Ip => AnonModel { ips: t, ..a },
    }
}

/// First assignment of `k` in a table.
pub open spec fn tbl_lookup(t: Seq<(Seq<char>, Seq<char>)>, k: Seq<char>) -> Option<Seq<char>>
    decreases t.len(),
{
    if t.len() == 0 {
        None
    } else if t[0].0 == k {
        Some(t[0].1)
    } else {
        tbl_lookup(t.skip(1), k)
    }
}

/// The decimal digits of `n`.
pub open spec fn dec_spec(n: nat) -> Seq<char>
    decreases n,
{
    if n < 10 {
        seq![digit_char(n)]
    } else {
        dec_spec(n / 10) + seq![digit_char(n % 10)]
    }
}

pub open spec fn digit_char(d: nat) -> char {
    if d == 0 {
        '0'
    } else if d == 1 {
        '1'
    } else if d == 2 {
        '2'
    } else if d == 3 {
        '3'
    } else if d == 4 {
        '4'
    } else if d == 5 {
        '5'
    } else if d == 6 {
        '6'
    } else if d == 7 {
        '7'
    } else if d == 8 {
        '8'
    } else {
        '9'
    }
}

/// The replacement assigned to the `n`-th fresh value of a category:
/// readable user and secret names, a documentation IPv4 or IPv6 prefix, and
/// a private-use AS number.
pub open spec fn fresh_repl(kind: TokenKind, orig: Seq<char>, n: nat) -> Seq<char> {
    match kind {
        TokenKind::Username => "user"@ + dec_spec(n),
        TokenKind::Secret => "scrambled"@ + dec_spec(n),
        TokenKind::Asn => dec_spec(4200000000 + n),
        TokenKind::Ip => if is_ipv6_word(orig) {
            "2001:db8::"@ + dec_spec(n)
        } else {
            "203.0.113."@ + dec_spec(n)
        },
    }
}

/// Look the original up in its category's table, assigning the next fresh
/// replacement on a miss: the same original always maps to the same
/// replacement within one run.
pub open spec fn anon_assign(a: AnonModel, kind: TokenKind, orig: Seq<char>) -> (
    AnonModel,
    Seq<char>,
) {
    let t = table_of(a, kind);
    match tbl_lookup(t, orig) {
        Some(r) => (a, r),
        None => {
            let r = fresh_repl(kind, orig, t.len() + 1);
            (with_table(a, kind, t.push((orig, r))), r)
        },
    }
}

// ---------- the scrub fold ----------

/// The full replacement text for word `q`: an IP literal keeps its
/// `/`-suffix.
pub open spec fn word_repl(l: Seq<char>, sp: Seq<(int, int)>, q: int, r: Seq<char>) -> Seq<char> {
    let w = word_of(l, sp, q);
    if class_of(l, sp, q) == Some(TokenKind::Ip) && is_ipv4_word(w) && !is_ipv6_word(w) {
        r + w.skip(addr_len(w) as int)
    } else {
        r
    }
}

/// Scrub the line from word `q` on, copying from position `pos`: classified
/// words are replaced, everything between them is kept verbatim, and one
/// capture is reported per replaced value.
pub open spec fn scrub_from(
    a: AnonModel,
    l: Seq<char>,
    sp: Seq<(int, int)>,
    q: int,
    pos: int,
) -> (AnonModel, Seq<char>, Seq<CapModel>)
    decreases sp.len() - q,
{
    if !(0 <= q < sp.len()) {
        (a, l.subrange(pos, l.len() as int), Seq::empty())
    } else {
        match class_of(l, sp, q) {
            None => scrub_from(a, l, sp, q + 1, pos),
            Some(kind) => {
                let orig = original_of(l, sp, q);
                let ar = anon_assign(a, kind, orig);
                let rest = scrub_from(ar.0, l, sp, q + 1, sp[q].1);
                (
                    rest.0,
                    l.subrange(pos, sp[q].0) + word_repl(l, sp, q, ar.1) + rest.1,
                    seq![
                        CapModel { kind, original: orig, anonymized: Some(ar.1) },
                    ] + rest.2,
                )
            },
        }
    }
}

/// Scrub a whole line.
pub open spec fn scrub_line(a: AnonModel, l: Seq<char>) -> (AnonModel, Seq<char>, Seq<CapModel>) {
    scrub_from(a, l, word_spans(l, 0), 0, 0)
}

/// The plain (unanonymized) captures of a line, from word `q` on.
pub open spec fn plain_from(l: Seq<char>, sp: Seq<(int, int)>, q: int) -> Seq<CapModel>
    decreases sp.len() - q,
{
    if !(0 <= q < sp.len()) {
        Seq::empty()
    } else {
        (match class_of(l, sp, q) {
            Some(k) => seq![
                CapModel { kind: k, original: original_of(l, sp, q), anonymized: None },
            ],
            None => Seq::<CapModel>::empty(),
        }) + plain_from(l, sp, q + 1)
    }
}

/// The plain (unanonymized) captures of a whole line.
pub open spec fn plain_caps(l: Seq<char>) -> Seq<CapModel> {
    plain_from(l, word_spans(l, 0), 0)
}

// ---------- executable helpers ----------

pub fn is_digit_char(c: char) -> (r: bool)
    ensures
        r == is_digit(c),
{
    let u = c as u32;
    48 <= u && u <= 57
}

pub fn is_hex_digit_char(c: char) -> (r: bool)
    ensures
        r == is_hex_digit(c),
{
    let u = c as u32;
    is_digit_char(c) || (97 <= u && u <= 102) || (65 <= u && u <= 70)
}

fn digit_str(d: u128) -> (r: &'static str)
    requires
        d < 10,
    ensures
        r@ == seq![digit_char(d as nat)],
{
    if d == 0 {
        proof {
            reveal_strlit("0");
            assert("0"@ =~= seq![digit_char(0)]);
        }
        "0"
    } else if d == 1 {
        proof {
            reveal_strlit("1");
            assert("1"@ =~= seq![digit_char(1)]);
        }
        "1"
    } else if d == 2 {
        proof {
            reveal_strlit("2");
            assert("2"@ =~= seq![digit_char(2)]);
        }
        "2"
    } else if d == 3 {
        proof {
            reveal_strlit("3");
            assert("3"@ =~= seq![digit_char(3)]);
        }
        "3"
    } else if d == 4 {
        proof {
            reveal_strlit("4");
            assert("4"@ =~= seq![digit_char(4)]);
        }
        "4"
    } else if d == 5 {
        proof {
            reveal_strlit("5");
            assert("5"@ =~= seq![digit_char(5)]);
        }
        "5"
    } else if d == 6 {
        proof {
            reveal_strlit("6");
            assert("6"@ =~= seq![digit_char(6)]);
        }
        "6"
    } else if d == 7 {
        proof {
            reveal_strlit("7");
            assert("7"@ =~= seq![digit_char(7)]);
        }
        "7"
    } else if d == 8 {
        proof {
            reveal_strlit("8");
            assert("8"@ =~= seq![digit_char(8)]);
        }
        "8"
    } else {
        proof {
            reveal_strlit("9");
            assert("9"@ =~= seq![digit_char(9)]);
        }
        "9"
    }
}

/// Decimal rendering of a number.
pub fn to_decimal(n: u128) -> (r: String)
    ensures
        r@ == dec_spec(n as nat),
    decreases n,
{
    if n < 10 {
        digit_str(n).to_owned()
    } else {
        let mut s = to_decimal(n / 10);
        s.append(digit_str(n % 10));
        proof {
            assert(s@ =~= dec_spec(n as nat));
        }
        s
    }
}

fn is_username_kw_exec(w: &String) -> (r: bool)
    ensures
        r == is_username_kw(w@),
{
    let a = String::from_str("username");
    let b = String::from_str("user");
    crate::dialect::string_eq(w, &a) || crate::dialect::string_eq(w, &b)
}

fn is_secret_kw_exec(w: &String) -> (r: bool)
    ensures
        r == is_secret_kw(w@),
{
    let a = String::from_str("password");
    let b = String::from_str("secret");
    crate::dialect::string_eq(w, &a) || crate::dialect::string_eq(w, &b)
}

fn is_asn_kw_exec(w: &String) -> (r: bool)
    ensures
        r == is_asn_kw(w@),
{
    let a = String::from_str("bgp");
    let b = String::from_str("remote-as");
    let c = String::from_str("local-as");
    let d = String::from_str("peer-as");
    crate::dialect::string_eq(w, &a) || crate::dialect::string_eq(w, &b) || crate::dialect::string_eq(
        w,
        &c,
    ) || crate::dialect::string_eq(w, &d)
}

fn is_digits_exec(w: &String) -> (r: bool)
    ensures
        r == is_digits(w@),
{
    let n = w.as_str().unicode_len();
    if n == 0 {
        return false;
    }
    let mut j: usize = 0;
    while j < n
        invariant
            n == w@.len(),
            j <= n,
            forall|q: int| 0 <= q < j ==> is_digit(#[trigger] w@[q]),
        decreases n - j,
    {
        if !is_digit_char(w.as_str().get_char(j)) {
            return false;
        }
        j = j + 1;
    }
    true
}

/// The `/` position in a word, or its length.
fn slash_pos_exec(w: &String) -> (r: usize)
    ensures
        r as nat == addr_len(w@),
        r <= w@.len(),
{
    let n = w.as_str().unicode_len();
    let mut j: usize = 0;
    while j < n && !char_eq(w.as_str().get_char(j), '/')
        invariant
            n == w@.len(),
            j <= n,
            forall|q: int| 0 <= q < j ==> w@[q] != '/',
        decreases n - j,
    {
        j = j + 1;
    }
    proof {
        lemma_first_at_is(w@, '/', j as int);
    }
    j
}

fn is_ipv4_word_exec(w: &String) -> (r: bool)
    ensures
        r == is_ipv4_word(w@),
{
    let e = slash_pos_exec(w);
    let ghost a = w@.take(e as int);
    if e == 0 {
        return false;
    }
    let mut dots: usize = 0;
    let mut chars_ok = true;
    let mut adj_ok = true;
    let mut j: usize = 0;
    while j < e
        invariant
            e <= w@.len(),
            a == w@.take(e as int),
            j <= e,
            dots <= j,
            dots as nat == count_of(a.take(j as int), '.'),
            chars_ok == (forall|q: int| 0 <= q < j ==> is_digit(#[trigger] a[q]) || a[q] == '.'),
            adj_ok == (forall|q: int| 0 < q < j ==> !(#[trigger] a[q] == '.' && a[q - 1] == '.')),
        decreases e - j,
    {
        let c = w.as_str().get_char(j);
        proof {
            assert(a[j as int] == w@[j as int]);
            assert(a.take(j + 1).take(j as int) =~= a.take(j as int));
            assert(a.take(j + 1)[j as int] == a[j as int]);
        }
        let is_dot = char_eq(c, '.');
        if is_dot {
            if j > 0 && char_eq(w.as_str().get_char(j - 1), '.') {
                adj_ok = false;
            }
            dots = dots + 1;
        } else if !is_digit_char(c) {
            chars_ok = false;
        }
        proof {
            if j > 0 {
                assert(a[j - 1] == w@[j - 1]);
            }
        }
        j = j + 1;
    }
    proof {
        assert(a.take(e as int) =~= a);
    }
    let first_ok = !char_eq(w.as_str().get_char(0), '.');
    let last_ok = !char_eq(w.as_str().get_char(e - 1), '.');
    proof {
        assert(a[0] == w@[0]);
        assert(a[e - 1] == w@[e - 1]);
        assert(a.len() == e);
    }
    dots == 3 && chars_ok && adj_ok && first_ok && last_ok
}

fn is_ipv6_word_exec(w: &String) -> (r: bool)
    ensures
        r == is_ipv6_word(w@),
{
    let n = w.as_str().unicode_len();
    if n == 0 {
        return false;
    }
    let mut colons: usize = 0;
    let mut chars_ok = true;
    let mut j: usize = 0;
    while j < n
        invariant
            n == w@.len(),
            j <= n,
            colons <= j,
            colons as nat == count_of(w@.take(j as int), ':'),
            chars_ok == (forall|q: int|
                0 <= q < j ==> is_hex_digit(#[trigger] w@[q]) || w@[q] == ':'),
        decreases n - j,
    {
        let c = w.as_str().get_char(j);
        proof {
            assert(w@.take(j + 1).take(j as int) =~= w@.take(j as int));
            assert(w@.take(j + 1)[j as int] == w@[j as int]);
        }
        if char_eq(c, ':') {
            colons = colons + 1;
        } else if !is_hex_digit_char(c) {
            chars_ok = false;
        }
        j = j + 1;
    }
    proof {
        assert(w@.take(n as int) =~= w@);
    }
    colons >= 2 && chars_ok
}

/// Classify one word against its neighbours.
fn classify_word(
    words: &Vec<String>,
    q: usize,
    Ghost(l): Ghost<Seq<char>>,
    Ghost(sp): Ghost<Seq<(int, int)>>,
) -> (r: Option<TokenKind>)
    requires
        words.deep_view().len() == sp.len(),
        forall|j: int| 0 <= j < sp.len() ==> words.deep_view()[j] == word_of(l, sp, j),
        (q as int) < sp.len(),
    ensures
        r == class_of(l, sp, q as int),
{
    proof {
        vstd::std_specs::vec::axiom_spec_len(words);
    }
    let w = &words[q];
    proof {
        assert(words.deep_view()[q as int] == words@[q as int].deep_view());
        assert(w@ == word_of(l, sp, q as int));
        if q >= 1 {
            assert(words.deep_view()[q - 1] == words@[q - 1].deep_view());
        }
        if q >= 2 {
            assert(words.deep_view()[q - 2] == words@[q - 2].deep_view());
        }
        if q >= 1 {
            assert(words.deep_view()[q - 1] == word_of(l, sp, q as int - 1));
        }
        if q >= 2 {
            assert(words.deep_view()[q - 2] == word_of(l, sp, q as int - 2));
        }
    }
    if q >= 1 && is_username_kw_exec(&words[q - 1]) {
        Some(TokenKind::Username)
    } else if q >= 1 && is_secret_kw_exec(&words[q - 1]) && !(is_enc_marker_exec(w) && q + 1
        < words.len()) {
        Some(TokenKind::Secret)
    } else if q >= 2 && is_secret_kw_exec(&words[q - 2]) && is_enc_marker_exec(&words[q - 1]) {
        Some(TokenKind::Secret)
    } else if q >= 1 && is_asn_kw_exec(&words[q - 1]) && is_digits_exec(w) {
        Some(TokenKind::Asn)
    } else if is_ipv4_word_exec(w) || is_ipv6_word_exec(w) {
        Some(TokenKind::Ip)
    } else {
        None
    }
}

fn is_enc_marker_exec(w: &String) -> (r: bool)
    ensures
        r == is_enc_marker(w@),
{
    w.as_str().unicode_len() == 1 && is_digits_exec(w)
}

// ---------- the anonymizer ----------

/// Look up or assign a replacement in one category table.
fn tbl_assign(t: &mut Vec<(String, String)>, kind: TokenKind, original: &String) -> (r: String)
    ensures
        match tbl_lookup(tbl_model(old(t)@), original@) {
            Some(r0) => r@ == r0 && final(t)@ == old(t)@,
            None => {
                let r0 = fresh_repl(kind, original@, tbl_model(old(t)@).len() + 1);
                r@ == r0 && tbl_model(final(t)@) == tbl_model(old(t)@).push((original@, r0))
            },
        },
{
    let ghost tm = tbl_model(t@);
    proof {
        assert(tm.skip(0) =~= tm);
    }
    let mut j: usize = 0;
    let n = t.len();
    while j < n
        invariant
            n == t@.len(),
            tm == tbl_model(t@),
            j <= n,
            tbl_lookup(tm, original@) == tbl_lookup(tm.skip(j as int), original@),
        decreases n - j,
    {
        proof {
            assert(tm.skip(j as int)[0] == tm[j as int]);
            assert(tm.skip(j as int).skip(1) =~= tm.skip(j + 1));
        }
        if crate::dialect::string_eq(&t[j].0, original) {
            proof {
                assert(tbl_lookup(tm.skip(j as int), original@) == Some(tm[j as int].1));
            }
            return t[j].1.clone();
        }
        j = j + 1;
    }
    proof {
        assert(tm.skip(n as int) =~= Seq::<(Seq<char>, Seq<char>)>::empty());
        assert(tbl_lookup(tm, original@) is None);
    }
    let num = to_decimal((n as u128) + 1);
    let r: String = match kind {
        TokenKind::Username => {
            let mut s = String::from_str("user");
            s.append(num.as_str());
            s
        },
        TokenKind::Secret => {
            let mut s = String::from_str("scrambled");
            s.append(num.as_str());
            s
        },
        TokenKind::Asn => to_decimal(4200000000u128 + (n as u128) + 1),
        TokenKind::Ip => {
            if is_ipv6_word_exec(original) {
                let mut s = String::from_str("2001:db8::");
                s.append(num.as_str());
                s
            } else {
                let mut s = String::from_str("203.0.113.");
                s.append(num.as_str());
                s
            }
        },
    };
    proof {
        assert(r@ == fresh_repl(kind, original@, tm.len() + 1));
    }
    let ghost old_t = t@;
    t.push((original.clone(), r.clone()));
    proof {
        assert(tbl_model(t@) =~= tbl_model(old_t).push((original@, r@)));
    }
    r
}

impl Anonymizer {
    /// A fresh anonymizer with empty assignment tables.
    pub fn new() -> (a: Anonymizer)
        ensures
            a@ == (AnonModel {
                users: Seq::empty(),
                secrets: Seq::empty(),
                asns: Seq::empty(),
                ips: Seq::empty(),
            }),
    {
        let a = Anonymizer {
            users: Vec::new(),
            secrets: Vec::new(),
            asns: Vec::new(),
            ips: Vec::new(),
        };
        proof {
            assert(a@.users =~= Seq::<(Seq<char>, Seq<char>)>::empty());
            assert(a@.secrets =~= Seq::<(Seq<char>, Seq<char>)>::empty());
            assert(a@.asns =~= Seq::<(Seq<char>, Seq<char>)>::empty());
            assert(a@.ips =~= Seq::<(Seq<char>, Seq<char>)>::empty());
        }
        a
    }

    /// Map one original to its stable replacement.
    fn assign(&mut self, kind: TokenKind, original: &String) -> (r: String)
        ensures
            final(self)@ == anon_assign(old(self)@, kind, original@).0,
            r@ == anon_assign(old(self)@, kind, original@).1,
    {
        match kind {
            TokenKind::Username => {
                let r = tbl_assign(&mut self.users, kind, original);
                proof {
                    assert(self@.secrets =~= old(self)@.secrets);
                    assert(self@.asns =~= old(self)@.asns);
                    assert(self@.ips =~= old(self)@.ips);
                }
                r
            },
            TokenKind::Secret => {
                let r = tbl_assign(&mut self.secrets, kind, original);
                proof {
                    assert(self@.users =~= old(self)@.users);
                    assert(self@.asns =~= old(self)@.asns);
                    assert(self@.ips =~= old(self)@.ips);
                }
                r
            },
            TokenKind::Asn => {
                let r = tbl_assign(&mut self.asns, kind, original);
                proof {
                    assert(self@.users =~= old(self)@.users);
                    assert(self@.secrets =~= old(self)@.secrets);
                    assert(self@.ips =~= old(self)@.ips);
                }
                r
            },
            TokenKind::Ip => {
                let r = tbl_assign(&mut self.ips, kind, original);
                proof {
                    assert(self@.users =~= old(self)@.users);
                    assert(self@.secrets =~= old(self)@.secrets);
                    assert(self@.asns =~= old(self)@.asns);
                }
                r
            },
        }
    }

    /// Redact a line and report one capture per replaced value.
    #[verifier::rlimit(100)]
    pub fn scrub_with_tokens(&mut self, line: &String, captures: &mut Vec<TokenCapture>) -> (r:
        String)
        ensures
            final(self)@ == scrub_line(old(self)@, line@).0,
            r@ == scrub_line(old(self)@, line@).1,
            caps_model(final(captures)@) == caps_model(old(captures)@) + scrub_line(
                old(self)@,
                line@,
            ).2,
    {
        let ghost l = line@;
        let ghost a0 = self@;
        let ghost caps_old = caps_model(captures@);
        let n = line.as_str().unicode_len();
        proof {
            assert(l.subrange(0, n as int) =~= l);
        }
        let sp = crate::dialect::word_spans_exec(line.as_str(), 0, n);
        let ghost spq = word_spans(l, 0);
        proof {
            crate::dialect::lemma_word_spans_bounds(l, 0);
        }
        let mut words: Vec<String> = Vec::new();
        let mut wi: usize = 0;
        while wi < sp.len()
            invariant
                n == l.len(),
                l == line@,
                spq == word_spans(l, 0),
                sp@.len() == spq.len(),
                forall|k: int|
                    0 <= k < sp@.len()
                        ==> (#[trigger] sp@[k]).0 <= sp@[k].1 <= n && spq[k] == (
                        sp@[k].0 as int,
                        sp@[k].1 as int,
                    ),
                wi <= sp@.len(),
                words.deep_view().len() == wi,
                forall|j: int| 0 <= j < wi ==> #[trigger] words.deep_view()[j] == word_of(l, spq, j),
            decreases sp@.len() - wi,
        {
            let (ws, we) = (sp[wi].0, sp[wi].1);
            let w = line.as_str().substring_char(ws, we).to_owned();
            proof {
                assert(w@ =~= word_of(l, spq, wi as int));
            }
            let ghost old_words = words.deep_view();
            words.push(w);
            proof {
                assert(words.deep_view() =~= old_words.push(word_of(l, spq, wi as int)));
            }
            wi = wi + 1;
        }
        let mut out = String::new();
        let mut pos: usize = 0;
        let mut q: usize = 0;
        proof {
            assert(out@ =~= Seq::<char>::empty());
            assert(scrub_from(a0, l, spq, 0, 0) == ({
                let rest = scrub_from(self@, l, spq, q as int, pos as int);
                (rest.0, out@ + rest.1, caps_model(captures@).skip(caps_old.len() as int) + rest.2)
            })) by {
                let rest = scrub_from(self@, l, spq, 0, 0);
                assert(out@ + rest.1 =~= rest.1);
                assert(caps_model(captures@).skip(caps_old.len() as int) =~= Seq::<
                    CapModel,
                >::empty());
                assert(caps_model(captures@).skip(caps_old.len() as int) + rest.2 =~= rest.2);
            }
        }
        while q < sp.len()
            invariant
                n == l.len(),
                l == line@,
                spq == word_spans(l, 0),
                sp@.len() == spq.len(),
                forall|k: int|
                    0 <= k < sp@.len()
                        ==> (#[trigger] sp@[k]).0 <= sp@[k].1 <= n && spq[k] == (
                        sp@[k].0 as int,
                        sp@[k].1 as int,
                    ),
                forall|k: int| 0 <= k < spq.len() - 1 ==> (#[trigger] spq[k]).1 <= spq[k + 1].0,
                forall|k: int| 0 <= k < spq.len() ==> 0 <= (#[trigger] spq[k]).0 < spq[k].1 <= n,
                words.deep_view().len() == sp@.len(),
                forall|j: int|
                    0 <= j < sp@.len() ==> #[trigger] words.deep_view()[j] == word_of(l, spq, j),
                q <= sp@.len(),
                pos <= n,
                (q as int) < sp@.len() ==> pos as int <= spq[q as int].0,
                caps_model(captures@).len() >= caps_old.len(),
                caps_model(captures@).take(caps_old.len() as int) == caps_old,
                scrub_from(a0, l, spq, 0, 0) == ({
                    let rest = scrub_from(self@, l, spq, q as int, pos as int);
                    (
                        rest.0,
                        out@ + rest.1,
                        caps_model(captures@).skip(caps_old.len() as int) + rest.2,
                    )
                }),
            decreases sp@.len() - q,
        {
            let cls = classify_word(&words, q, Ghost(l), Ghost(spq));
            match cls {
                None => {
                    proof {
                        assert(scrub_from(self@, l, spq, q as int, pos as int) == scrub_from(
                            self@,
                            l,
                            spq,
                            q as int + 1,
                            pos as int,
                        ));
                        if (q as int) + 1 < spq.len() {
                            assert(spq[q as int].1 <= spq[q as int + 1].0);
                        }
                    }
                    q = q + 1;
                },
                Some(kind) => {
                    let w = &words[q];
                    proof {
                        assert(words.deep_view()[q as int] == words@[q as int].deep_view());
                        assert(w@ == word_of(l, spq, q as int));
                    }
                    let ip4 = match kind {
                        TokenKind::Ip => is_ipv4_word_exec(w) && !is_ipv6_word_exec(w),
                        _ => false,
                    };
                    let orig: String = if ip4 {
                        let sa = slash_pos_exec(w);
                        w.as_str().substring_char(0, sa).to_owned()
                    } else {
                        w.clone()
                    };
                    proof {
                        if ip4 {
                            assert(orig@ =~= original_of(l, spq, q as int));
                        } else {
                            assert(orig@ == original_of(l, spq, q as int));
                        }
                    }
                    let ghost a_before = self@;
                    let ghost out_before = out@;
                    let ghost orig_v = original_of(l, spq, q as int);
                    let ghost ar = anon_assign(a_before, kind, orig_v);
                    let r = self.assign(kind, &orig);
                    let (ws, we) = (sp[q].0, sp[q].1);
                    out.append(line.as_str().substring_char(pos, ws));
                    out.append(r.as_str());
                    if ip4 {
                        let sa = slash_pos_exec(w);
                        let wlen = w.as_str().unicode_len();
                        out.append(w.as_str().substring_char(sa, wlen));
                        proof {
                            let wv = word_of(l, spq, q as int);
                            assert(w@.subrange(sa as int, wlen as int) =~= wv.skip(
                                addr_len(wv) as int,
                            ));
                        }
                    }
                    proof {
                        assert(out@ =~= out_before + (l.subrange(pos as int, spq[q as int].0)
                            + word_repl(l, spq, q as int, ar.1)));
                    }
                    let ghost caps_before = caps_model(captures@);
                    let ghost head = CapModel {
                        kind,
                        original: orig_v,
                        anonymized: Some(ar.1),
                    };
                    let cap = TokenCapture { kind, original: orig, anonymized: Some(r) };
                    proof {
                        assert(cap@ == head);
                    }
                    captures.push(cap);
                    proof {
                        assert(caps_model(captures@) =~= caps_before.push(head));
                        assert(caps_model(captures@).take(caps_old.len() as int) =~= caps_old);
                        let rest_new = scrub_from(self@, l, spq, q as int + 1, spq[q as int].1);
                        let rest_old = scrub_from(a_before, l, spq, q as int, pos as int);
                        assert(rest_old == (
                            rest_new.0,
                            l.subrange(pos as int, spq[q as int].0) + word_repl(
                                l,
                                spq,
                                q as int,
                                ar.1,
                            ) + rest_new.1,
                            seq![head] + rest_new.2,
                        ));
                        assert(out@ + rest_new.1 =~= out_before + rest_old.1);
                        assert(caps_model(captures@).skip(caps_old.len() as int) + rest_new.2
                            =~= caps_before.skip(caps_old.len() as int) + rest_old.2);
                        if (q as int) + 1 < spq.len() {
                            assert(spq[q as int].1 <= spq[q as int + 1].0);
                        }
                    }
                    pos = we;
                    q = q + 1;
                },
            }
        }
        out.append(line.as_str().substring_char(pos, n));
        proof {
            assert(scrub_from(self@, l, spq, sp@.len() as int, pos as int) == (
                self@,
                l.subrange(pos as int, l.len() as int),
                Seq::<CapModel>::empty(),
            ));
            let whole = scrub_from(a0, l, spq, 0, 0);
            assert(out@ =~= whole.1);
            assert(caps_model(captures@).skip(caps_old.len() as int) + Seq::<CapModel>::empty()
                =~= caps_model(captures@).skip(caps_old.len() as int));
            assert(caps_model(captures@) =~= caps_old + whole.2);
        }
        out
    }

    /// Redact a line without reporting captures.
    pub fn scrub(&mut self, line: &String) -> (r: String)
        ensures
            final(self)@ == scrub_line(old(self)@, line@).0,
            r@ == scrub_line(old(self)@, line@).1,
    {
        let mut caps: Vec<TokenCapture> = Vec::new();
        self.scrub_with_tokens(line, &mut caps)
    }
}

/// Classify the sensitive values of a line without altering the text.
pub fn collect_plain_tokens(line: &String) -> (caps: Vec<TokenCapture>)
    ensures
        caps_model(caps@) == plain_caps(line@),
{
    let ghost l = line@;
    let n = line.as_str().unicode_len();
    proof {
        assert(l.subrange(0, n as int) =~= l);
    }
    let sp = crate::dialect::word_spans_exec(line.as_str(), 0, n);
    let ghost spq = word_spans(l, 0);
    let mut words: Vec<String> = Vec::new();
    let mut wi: usize = 0;
    while wi < sp.len()
        invariant
            n == l.len(),
            l == line@,
            spq == word_spans(l, 0),
            sp@.len() == spq.len(),
            forall|k: int|
                0 <= k < sp@.len()
                    ==> (#[trigger] sp@[k]).0 <= sp@[k].1 <= n && spq[k] == (
                    sp@[k].0 as int,
                    sp@[k].1 as int,
                ),
            wi <= sp@.len(),
            words.deep_view().len() == wi,
            forall|j: int| 0 <= j < wi ==> #[trigger] words.deep_view()[j] == word_of(l, spq, j),
        decreases sp@.len() - wi,
    {
        let (ws, we) = (sp[wi].0, sp[wi].1);
        let w = line.as_str().substring_char(ws, we).to_owned();
        proof {
            assert(w@ =~= word_of(l, spq, wi as int));
        }
        let ghost old_words = words.deep_view();
        words.push(w);
        proof {
            assert(words.deep_view() =~= old_words.push(word_of(l, spq, wi as int)));
        }
        wi = wi + 1;
    }
    let mut caps: Vec<TokenCapture> = Vec::new();
    let mut q: usize = 0;
    proof {
        assert(caps_model(caps@) =~= Seq::<CapModel>::empty());
        assert(caps_model(caps@) + plain_from(l, spq, 0) =~= plain_from(l, spq, 0));
    }
    while q < sp.len()
        invariant
            n == l.len(),
            l == line@,
            spq == word_spans(l, 0),
            sp@.len() == spq.len(),
            words.deep_view().len() == sp@.len(),
            forall|j: int|
                0 <= j < sp@.len() ==> #[trigger] words.deep_view()[j] == word_of(l, spq, j),
            forall|k: int|
                0 <= k < sp@.len()
                    ==> (#[trigger] sp@[k]).0 <= sp@[k].1 <= n && spq[k] == (
                    sp@[k].0 as int,
                    sp@[k].1 as int,
                ),
            q <= sp@.len(),
            caps_model(caps@) + plain_from(l, spq, q as int) =~= plain_from(l, spq, 0),
        decreases sp@.len() - q,
    {
        let cls = classify_word(&words, q, Ghost(l), Ghost(spq));
        match cls {
            None => {},
            Some(kind) => {
                let w = &words[q];
                proof {
                    assert(words.deep_view()[q as int] == words@[q as int].deep_view());
                    assert(w@ == word_of(l, spq, q as int));
                }
                let ip4 = match kind {
                    TokenKind::Ip => is_ipv4_word_exec(w) && !is_ipv6_word_exec(w),
                    _ => false,
                };
                let orig: String = if ip4 {
                    let sa = slash_pos_exec(w);
                    w.as_str().substring_char(0, sa).to_owned()
                } else {
                    w.clone()
                };
                proof {
                    if ip4 {
                        assert(orig@ =~= original_of(l, spq, q as int));
                    } else {
                        assert(orig@ == original_of(l, spq, q as int));
                    }
                }
                let ghost caps_before = caps_model(caps@);
                caps.push(TokenCapture { kind, original: orig, anonymized: None });
                proof {
                    assert(caps_model(caps@) =~= caps_before.push(
                        CapModel {
                            kind,
                            original: original_of(l, spq, q as int),
                            anonymized: None,
                        },
                    ));
                }
            },
        }
        q = q + 1;
    }
    proof {
        assert(plain_from(l, spq, sp@.len() as int) =~= Seq::<CapModel>::empty());
        assert(caps_model(caps@) =~= plain_caps(l));
    }
    caps
}

// ---------- stated properties ----------

proof fn lemma_tbl_lookup_push(t: Seq<(Seq<char>, Seq<char>)>, k: Seq<char>, r: Seq<char>)
    requires
        tbl_lookup(t, k) is None,
    ensures
        tbl_lookup(t.push((k, r)), k) == Some(r),
    decreases t.len(),
{
    if t.len() == 0 {
        assert(t.push((k, r))[0] == (k, r));
    } else {
        assert(t.push((k, r))[0] == t[0]);
        assert(t.push((k, r)).skip(1) =~= t.skip(1).push((k, r)));
        lemma_tbl_lookup_push(t.skip(1), k, r);
    }
}

/// Stability: the same original value occurring twice in
/// one run always anonymizes identically, and the second occurrence changes
/// no state.
pub proof fn lemma_anonymize_stable(a: AnonModel, kind: TokenKind, orig: Seq<char>)
    ensures
        ({
            let first = anon_assign(a, kind, orig);
            let second = anon_assign(first.0, kind, orig);
            second.1 == first.1 && second.0 == first.0
        }),
{
    let t = table_of(a, kind);
    match tbl_lookup(t, orig) {
        Some(r) => {
        },
        None => {
            let r = fresh_repl(kind, orig, t.len() + 1);
            lemma_tbl_lookup_push(t, orig, r);
            assert(table_of(with_table(a, kind, t.push((orig, r))), kind) == t.push((orig, r)));
        },
    }
}

/// Repeatability: anonymization is a function of the state
/// and the text alone, so two runs from equal states assign identically.
pub proof fn lemma_anonymize_repeatable(a1: AnonModel, a2: AnonModel, l: Seq<char>)
    requires
        a1 == a2,
    ensures
        scrub_line(a1, l) == scrub_line(a2, l),
{
}

/// The round-trip law: plain collection and scrubbing report
/// the same categories and the same original values; only the anonymized
/// values differ.
pub proof fn lemma_scrub_reports_same_originals(a: AnonModel, l: Seq<char>)
    ensures
        scrub_line(a, l).2.len() == plain_caps(l).len(),
        forall|j: int|
            0 <= j < plain_caps(l).len()
                ==> (#[trigger] scrub_line(a, l).2[j]).kind == plain_caps(l)[j].kind
                    && scrub_line(a, l).2[j].original == plain_caps(l)[j].original,
{
    lemma_scrub_caps_match(a, l, word_spans(l, 0), 0, 0);
}

proof fn lemma_scrub_caps_match(
    a: AnonModel,
    l: Seq<char>,
    sp: Seq<(int, int)>,
    q: int,
    pos: int,
)
    ensures
        scrub_from(a, l, sp, q, pos).2.len() == plain_from(l, sp, q).len(),
        forall|j: int|
            0 <= j < plain_from(l, sp, q).len()
                ==> (#[trigger] scrub_from(a, l, sp, q, pos).2[j]).kind == plain_from(
                    l,
                    sp,
                    q,
                )[j].kind && scrub_from(a, l, sp, q, pos).2[j].original == plain_from(
                    l,
                    sp,
                    q,
                )[j].original,
    decreases sp.len() - q,
{
    if 0 <= q < sp.len() {
        match class_of(l, sp, q) {
            None => {
                lemma_scrub_caps_match(a, l, sp, q + 1, pos);
            },
            Some(kind) => {
                let orig = original_of(l, sp, q);
                let ar = anon_assign(a, kind, orig);
                lemma_scrub_caps_match(ar.0, l, sp, q + 1, sp[q].1);
                let head = CapModel { kind, original: orig, anonymized: Some(ar.1) };
                let headp = CapModel { kind, original: orig, anonymized: None };
                assert(scrub_from(a, l, sp, q, pos).2 == seq![head] + scrub_from(
                    ar.0,
                    l,
                    sp,
                    q + 1,
                    sp[q].1,
                ).2);
                assert(plain_from(l, sp, q) == seq![headp] + plain_from(l, sp, q + 1));
            },
        }
    }
}

} // verus!
