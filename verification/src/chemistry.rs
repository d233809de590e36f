//! Parsing of chemical equations and the balance check.

use vstd::prelude::*;

verus! {

use crate::numerals::{
    digits_value, render_digits, parse_digits, u32_to_digits, lemma_digits_value_positive,
};

// ---------------------------------------------------------------------------
// Character classes
// ---------------------------------------------------------------------------

pub open spec fn is_upper_char(c: char) -> bool {
    'A' <= c && c <= 'Z'
}

pub open spec fn is_lower_char(c: char) -> bool {
    'a' <= c && c <= 'z'
}

pub open spec fn is_digit_char(c: char) -> bool {
    '0' <= c && c <= '9'
}

pub open spec fn is_space_char(c: char) -> bool {
    c == ' ' || c == '\t' || c == '\n' || c == '\r'
}

pub open spec fn all_digit_chars(s: Seq<char>) -> bool {
    forall|i: int| 0 <= i < s.len() ==> is_digit_char(#[trigger] s[i])
}

/// A molecule name: one uppercase letter followed by lowercase letters.
pub open spec fn valid_name(s: Seq<char>) -> bool {
    &&& s.len() >= 1
    &&& is_upper_char(s[0])
    &&& forall|i: int| 1 <= i < s.len() ==> is_lower_char(#[trigger] s[i])
}

// ---------------------------------------------------------------------------
// Data model
// ---------------------------------------------------------------------------

/// An element or molecule symbol together with its atom count, e.g. `H2`.
#[derive(Clone, Debug)]
pub struct Molecule {
    name: String,
    multiple: u32,
}

/// One `+`-separated species of an equation side: a leading multiplier
/// and the molecules it applies to, e.g. `2H2O`.
#[derive(Clone, Debug)]
pub struct Token {
    multiple: u32,
    terms: Vec<Molecule>,
}

/// A chemical equation: reactants on the left, products on the right.
#[derive(Clone, Debug)]
pub struct Equation {
    lhs: Vec<Token>,
    rhs: Vec<Token>,
}

/// The models of a sequence of molecules.
pub open spec fn mol_views(v: Seq<Molecule>) -> Seq<MoleculeModel> {
    v.map_values(|m: Molecule| m@)
}

/// The models of a sequence of tokens.
pub open spec fn token_views(v: Seq<Token>) -> Seq<TokenModel> {
    v.map_values(|t: Token| t@)
}

/// The views of a sequence of strings.
pub open spec fn string_views(v: Seq<String>) -> Seq<Seq<char>> {
    v.map_values(|x: String| x@)
}

/// The molecules denoted by a sequence of fragments.
pub open spec fn mols_of_fragments(fs: Seq<Seq<char>>) -> Seq<MoleculeModel> {
    fs.map_values(|f: Seq<char>| mol_of_fragment(f))
}

/// Mathematical model of a [`Molecule`].
pub ghost struct MoleculeModel {
    pub name: Seq<char>,
    pub multiple: nat,
}

/// Mathematical model of a [`Token`].
pub ghost struct TokenModel {
    pub multiple: nat,
    pub terms: Seq<MoleculeModel>,
}

/// Mathematical model of an [`Equation`].
pub ghost struct EquationModel {
    pub lhs: Seq<TokenModel>,
    pub rhs: Seq<TokenModel>,
}

impl View for Molecule {
    type V = MoleculeModel;

    closed spec fn view(&self) -> MoleculeModel {
        MoleculeModel { name: self.name@, multiple: self.multiple as nat }
    }
}

impl View for Token {
    type V = TokenModel;

    closed spec fn view(&self) -> TokenModel {
        TokenModel { multiple: self.multiple as nat, terms: mol_views(self.terms@) }
    }
}

impl View for Equation {
    type V = EquationModel;

    closed spec fn view(&self) -> EquationModel {
        EquationModel { lhs: token_views(self.lhs@), rhs: token_views(self.rhs@) }
    }
}

impl MoleculeModel {
    /// Validity of a parsed molecule: a well-shaped name and a positive count.
    pub open spec fn wf(self) -> bool {
        &&& valid_name(self.name)
        &&& 1 <= self.multiple <= u32::MAX
    }
}

impl TokenModel {
    /// Validity of a parsed term: a positive multiplier and at least one
    /// well-formed molecule.
    pub open spec fn wf(self) -> bool {
        &&& 1 <= self.multiple <= u32::MAX
        &&& self.terms.len() >= 1
        &&& forall|i: int| 0 <= i < self.terms.len() ==> (#[trigger] self.terms[i]).wf()
    }
}

/// Validity of one equation side: every term is well formed.
pub open spec fn side_wf(side: Seq<TokenModel>) -> bool {
    &&& side.len() >= 1
    &&& forall|i: int| 0 <= i < side.len() ==> (#[trigger] side[i]).wf()
}

/// Number of (term, molecule) pairs of a side; it bounds every element total.
pub open spec fn side_pairs(side: Seq<TokenModel>) -> nat
    decreases side.len(),
{
    if side.len() == 0 {
        0
    } else {
        side[0].terms.len() + side_pairs(side.drop_first())
    }
}

impl EquationModel {
    /// Validity of a parsed equation: both sides are non-empty sequences of
    /// well-formed terms, small enough that element totals fit in `u128`.
    pub open spec fn wf(self) -> bool {
        &&& side_wf(self.lhs)
        &&& side_wf(self.rhs)
        &&& side_pairs(self.lhs) < 0x1_0000_0000_0000_0000
        &&& side_pairs(self.rhs) < 0x1_0000_0000_0000_0000
    }
}

// ---------------------------------------------------------------------------
// Molecule fragments
// ---------------------------------------------------------------------------

/// First position at or after `i` that does not hold a lowercase letter.
pub open spec fn lower_end(s: Seq<char>, i: int) -> int
    decreases s.len() - i,
{
    if i < s.len() && is_lower_char(s[i]) {
        lower_end(s, i + 1)
    } else {
        i
    }
}

/// Characterizes [`lower_end`]: it marks the end of the lowercase run
/// beginning at `i`.
pub proof fn lemma_lower_end(s: Seq<char>, i: int)
    requires
        0 <= i <= s.len(),
    ensures
        i <= lower_end(s, i) <= s.len(),
        forall|j: int| i <= j < lower_end(s, i) ==> is_lower_char(#[trigger] s[j]),
        lower_end(s, i) == s.len() || !is_lower_char(s[lower_end(s, i)]),
    decreases s.len() - i,
{
    if i < s.len() && is_lower_char(s[i]) {
        lemma_lower_end(s, i + 1);
    }
}

/// The digit suffix of a molecule fragment.
pub open spec fn fragment_digits(f: Seq<char>) -> Seq<char> {
    f.subrange(lower_end(f, 1), f.len() as int)
}

/// The name prefix of a molecule fragment.
pub open spec fn fragment_name(f: Seq<char>) -> Seq<char> {
    f.take(lower_end(f, 1))
}

/// A well-shaped molecule fragment: an uppercase letter, lowercase
/// letters, then only digits — and the digit suffix fits in a `u32`.
pub open spec fn molecule_fragment_ok(f: Seq<char>) -> bool {
    &&& f.len() >= 1
    &&& is_upper_char(f[0])
    &&& all_digit_chars(fragment_digits(f))
    &&& digits_value(fragment_digits(f)) <= u32::MAX
}

/// The atom count written by a fragment: its digit suffix, with a missing
/// or zero count defaulting to one.
pub open spec fn fragment_multiple(f: Seq<char>) -> nat {
    if digits_value(fragment_digits(f)) == 0 {
        1
    } else {
        digits_value(fragment_digits(f))
    }
}

/// The molecule a well-shaped fragment denotes.
pub open spec fn mol_of_fragment(f: Seq<char>) -> MoleculeModel {
    MoleculeModel { name: fragment_name(f), multiple: fragment_multiple(f) }
}

/// Whether the character at position `i` is a lowercase letter.
fn lower_at(s: &str, i: usize) -> (r: bool)
    requires
        i < s@.len(),
    ensures
        r == is_lower_char(s@[i as int]),
{
    let c = s.get_char(i);
    'a' <= c && c <= 'z'
}

impl Molecule {
    /// Parses one molecule fragment, e.g. `H2` or `Na`: a name of one
    /// uppercase and then lowercase letters, followed by an optional atom
    /// count. `None` exactly on fragments of any other shape, and on
    /// counts beyond `u32::MAX`; a missing or zero count means one.
    pub fn from_string(string: &String) -> (r: Option<Molecule>)
        ensures
            r is Some <==> molecule_fragment_ok(string@),
            r matches Some(m) ==> m@ == mol_of_fragment(string@) && m@.wf(),
    {
        let s = string.as_str();
        let n = s.unicode_len();
        if n == 0 {
            return None;
        }
        let c0 = s.get_char(0);
        if !('A' <= c0 && c0 <= 'Z') {
            return None;
        }
        proof {
            lemma_lower_end(s@, 1);
        }
        let mut i: usize = 1;
        while i < n && lower_at(s, i)
            invariant
                1 <= i <= n,
                n == s@.len(),
                s@ == string@,
                forall|j: int| 1 <= j < i ==> is_lower_char(#[trigger] s@[j]),
            decreases n - i,
        {
            i = i + 1;
        }
        proof {
            if i < lower_end(s@, 1) {
                assert(is_lower_char(s@[i as int]));
            }
            if lower_end(s@, 1) < i {
                assert(!is_lower_char(s@[lower_end(s@, 1)]));
            }
            assert(i == lower_end(s@, 1));
        }
        let mut j: usize = i;
        while j < n
            invariant
                i <= j <= n,
                n == s@.len(),
                s@ == string@,
                i == lower_end(s@, 1),
                forall|k: int| i <= k < j ==> is_digit_char(#[trigger] s@[k]),
            decreases n - j,
        {
            let c = s.get_char(j);
            if !('0' <= c && c <= '9') {
                proof {
                    assert(0 <= j - i < fragment_digits(s@).len());
                    assert(fragment_digits(s@)[j - i] == s@[j as int]);
                    assert(!is_digit_char(s@[j as int]));
                    assert(!all_digit_chars(fragment_digits(s@)));
                }
                return None;
            }
            j = j + 1;
        }
        proof {
            assert(forall|k: int| 0 <= k < fragment_digits(s@).len() ==> is_digit_char(
                #[trigger] fragment_digits(s@)[k],
            ));
        }
        let value = match parse_digits(s, i, n) {
            Some(v) => v,
            None => {
                return None;
            },
        };
        let multiple: u32 = if value == 0 {
            1
        } else {
            value
        };
        let name_str = s.substring_char(0, i);
        let name = name_str.to_owned();
        proof {
            assert(name@ =~= fragment_name(s@));
            assert(forall|k: int| 1 <= k < fragment_name(s@).len() ==> is_lower_char(
                #[trigger] fragment_name(s@)[k],
            ));
        }
        Some(Molecule { name, multiple })
    }
}

// ---------------------------------------------------------------------------
// Scanning and splitting
// ---------------------------------------------------------------------------

/// First position at or after `i` whose character satisfies `p`, or the
/// length when there is none.
pub open spec fn scan_to(s: Seq<char>, i: int, p: spec_fn(char) -> bool) -> int
    decreases s.len() - i,
{
    if i < s.len() && !p(s[i]) {
        scan_to(s, i + 1, p)
    } else {
        i
    }
}

/// Characterizes [`scan_to`]: nothing before it satisfies `p`, and it
/// either satisfies `p` or is the length.
pub proof fn lemma_scan_to(s: Seq<char>, i: int, p: spec_fn(char) -> bool)
    requires
        0 <= i <= s.len(),
    ensures
        i <= scan_to(s, i, p) <= s.len(),
        forall|j: int| i <= j < scan_to(s, i, p) ==> !p(#[trigger] s[j]),
        scan_to(s, i, p) < s.len() ==> p(s[scan_to(s, i, p)]),
    decreases s.len() - i,
{
    if i < s.len() && !p(s[i]) {
        lemma_scan_to(s, i + 1, p);
    }
}

/// End of the trailing whitespace run: the least `e` such that
/// `s[e..]` is all spaces.
pub open spec fn trim_hi(s: Seq<char>, e: int) -> int
    decreases e,
{
    if e > 0 && e <= s.len() && is_space_char(s[e - 1]) {
        trim_hi(s, e - 1)
    } else {
        e
    }
}

/// Characterizes [`trim_hi`].
pub proof fn lemma_trim_hi(s: Seq<char>, e: int)
    requires
        0 <= e <= s.len(),
    ensures
        0 <= trim_hi(s, e) <= e,
        forall|j: int| trim_hi(s, e) <= j < e ==> is_space_char(#[trigger] s[j]),
        trim_hi(s, e) == 0 || !is_space_char(s[trim_hi(s, e) - 1]),
    decreases e,
{
    if e > 0 && is_space_char(s[e - 1]) {
        lemma_trim_hi(s, e - 1);
    }
}

/// `s` without leading and trailing whitespace.
pub open spec fn trim_spec(s: Seq<char>) -> Seq<char> {
    let b = scan_to(s, 0, |c: char| !is_space_char(c));
    if b == s.len() {
        Seq::<char>::empty()
    } else {
        s.subrange(b, trim_hi(s, s.len() as int))
    }
}

/// Removes leading and trailing whitespace.
pub fn trim_str(s: &str) -> (t: &str)
    ensures
        t@ == trim_spec(s@),
{
    let n = s.unicode_len();
    proof {
        lemma_scan_to(s@, 0, |c: char| !is_space_char(c));
        lemma_trim_hi(s@, n as int);
    }
    let mut b: usize = 0;
    while b < n && space_at(s, b)
        invariant
            0 <= b <= n,
            n == s@.len(),
            forall|j: int| 0 <= j < b ==> is_space_char(#[trigger] s@[j]),
        decreases n - b,
    {
        b = b + 1;
    }
    proof {
        let p = |c: char| !is_space_char(c);
        if b < scan_to(s@, 0, p) {
            assert(!p(s@[b as int]));
        }
        if scan_to(s@, 0, p) < b {
            assert(is_space_char(s@[scan_to(s@, 0, p)]));
        }
        assert(b == scan_to(s@, 0, p));
    }
    if b == n {
        let empty = s.substring_char(n, n);
        proof {
            assert(empty@ =~= trim_spec(s@));
        }
        return empty;
    }
    let mut e: usize = n;
    while e > 0 && space_at(s, e - 1)
        invariant
            0 <= e <= n,
            n == s@.len(),
            forall|j: int| e <= j < n ==> is_space_char(#[trigger] s@[j]),
        decreases e,
    {
        e = e - 1;
    }
    proof {
        let h = trim_hi(s@, n as int);
        if e < h {
            assert(is_space_char(s@[h - 1]));
        }
        if h < e {
            assert(is_space_char(s@[e - 1]));
        }
        assert(e == h);
        assert(e >= b + 1);
    }
    let t = s.substring_char(b, e);
    proof {
        assert(t@ =~= trim_spec(s@));
    }
    t
}

/// Whether the character at position `i` is whitespace.
fn space_at(s: &str, i: usize) -> (r: bool)
    requires
        i < s@.len(),
    ensures
        r == is_space_char(s@[i as int]),
{
    let c = s.get_char(i);
    c == ' ' || c == '\t' || c == '\n' || c == '\r'
}

/// Concatenation of a sequence of strings.
pub open spec fn concat_all(ps: Seq<Seq<char>>) -> Seq<char>
    decreases ps.len(),
{
    if ps.len() == 0 {
        Seq::<char>::empty()
    } else {
        ps[0] + concat_all(ps.drop_first())
    }
}

/// The fragments of a term string: it is cut immediately before every
/// uppercase letter that is not at the start.
pub open spec fn split_caps_spec(s: Seq<char>) -> Seq<Seq<char>>
    decreases s.len(),
{
    let b = scan_to(s, 1, |c: char| is_upper_char(c));
    if s.len() == 0 || b < 1 || b >= s.len() {
        seq![s]
    } else {
        seq![s.take(b)] + split_caps_spec(s.skip(b))
    }
}

/// The fragments of [`split_caps_spec`] are non-empty (for non-empty
/// input) and concatenate back to the input.
pub proof fn lemma_split_caps_spec(s: Seq<char>)
    ensures
        split_caps_spec(s).len() >= 1,
        concat_all(split_caps_spec(s)) == s,
        s.len() >= 1 ==> forall|k: int|
            0 <= k < split_caps_spec(s).len() ==> (#[trigger] split_caps_spec(s)[k]).len() >= 1,
    decreases s.len(),
{
    let ps = split_caps_spec(s);
    let b = scan_to(s, 1, |c: char| is_upper_char(c));
    if s.len() >= 1 {
        lemma_scan_to(s, 1, |c: char| is_upper_char(c));
    }
    if s.len() == 0 || b < 1 || b >= s.len() {
        assert(ps =~= seq![s]);
        assert(concat_all(ps) =~= s + concat_all(seq![s].drop_first()));
        assert(seq![s].drop_first() =~= Seq::<Seq<char>>::empty());
        assert(concat_all(ps) =~= s);
    } else {
        lemma_split_caps_spec(s.skip(b));
        assert(ps.drop_first() =~= split_caps_spec(s.skip(b)));
        assert(concat_all(ps) == s.take(b) + concat_all(split_caps_spec(s.skip(b))));
        assert(s.take(b) + s.skip(b) =~= s);
        assert forall|k: int| 0 <= k < ps.len() implies (#[trigger] ps[k]).len() >= 1 by {
            if k >= 1 {
                assert(ps[k] == split_caps_spec(s.skip(b))[k - 1]);
            }
        }
    }
}

/// The number of fragments never exceeds the input length.
pub proof fn lemma_split_caps_count(s: Seq<char>)
    requires
        s.len() >= 1,
    ensures
        split_caps_spec(s).len() <= s.len(),
    decreases s.len(),
{
    let b = scan_to(s, 1, |c: char| is_upper_char(c));
    lemma_scan_to(s, 1, |c: char| is_upper_char(c));
    if !(s.len() == 0 || b < 1 || b >= s.len()) {
        lemma_split_caps_count(s.skip(b));
    }
}

/// Splits a term string immediately before every uppercase letter that is
/// not at the start; e.g. `2H2O` becomes `2`, `H2`, `O`.
pub fn split_caps(string: String) -> (r: Vec<String>)
    ensures
        string_views(r@) == split_caps_spec(string@),
    decreases string@.len(),
{
    let s = string.as_str();
    let n = s.unicode_len();
    let mut b: usize = if n == 0 {
        0
    } else {
        1
    };
    if n >= 1 {
        proof {
            lemma_scan_to(s@, 1, |c: char| is_upper_char(c));
        }
        while b < n && !upper_at(s, b)
            invariant
                1 <= b <= n,
                n == s@.len(),
                s@ == string@,
                forall|j: int| 1 <= j < b ==> !is_upper_char(#[trigger] s@[j]),
            decreases n - b,
        {
            b = b + 1;
        }
        proof {
            let p = |c: char| is_upper_char(c);
            if b < scan_to(s@, 1, p) {
                assert(is_upper_char(s@[b as int]));
            }
            if scan_to(s@, 1, p) < b {
                assert(!is_upper_char(s@[scan_to(s@, 1, p)]));
            }
            assert(b == scan_to(s@, 1, p));
        }
    }
    if n == 0 || b >= n {
        let mut r: Vec<String> = Vec::new();
        r.push(string);
        proof {
            assert(string_views(r@) =~= split_caps_spec(string@));
        }
        r
    } else {
        let head = s.substring_char(0, b).to_owned();
        let rest = s.substring_char(b, n).to_owned();
        proof {
            assert(head@ =~= string@.take(b as int));
            assert(rest@ =~= string@.skip(b as int));
        }
        let mut r = split_caps(rest);
        r.insert(0, head);
        proof {
            assert(string_views(r@) =~= split_caps_spec(string@));
        }
        r
    }
}

/// Whether the character at position `i` is an uppercase letter.
fn upper_at(s: &str, i: usize) -> (r: bool)
    requires
        i < s@.len(),
    ensures
        r == is_upper_char(s@[i as int]),
{
    let c = s.get_char(i);
    'A' <= c && c <= 'Z'
}

// ---------------------------------------------------------------------------
// Terms
// ---------------------------------------------------------------------------

/// The error message for a fragment that is not a molecule.
pub open spec fn malformed_msg(f: Seq<char>) -> Seq<char> {
    "Malformed fragment: "@ + f
}

/// The first fragment of `fs` that is not a well-shaped molecule.
pub open spec fn first_bad_fragment(fs: Seq<Seq<char>>) -> Seq<char>
    decreases fs.len(),
{
    if fs.len() == 0 {
        Seq::<char>::empty()
    } else if !molecule_fragment_ok(fs[0]) {
        fs[0]
    } else {
        first_bad_fragment(fs.drop_first())
    }
}

/// When everything before `k` is well shaped and `fs[k]` is not, then
/// `fs[k]` is the first bad fragment.
pub proof fn lemma_first_bad(fs: Seq<Seq<char>>, k: int)
    requires
        0 <= k < fs.len(),
        forall|j: int| 0 <= j < k ==> molecule_fragment_ok(#[trigger] fs[j]),
        !molecule_fragment_ok(fs[k]),
    ensures
        first_bad_fragment(fs) == fs[k],
    decreases k,
{
    if k > 0 {
        lemma_first_bad(fs.drop_first(), k - 1);
    }
}

/// The fragments of a term string, after trimming.
pub open spec fn token_pieces(s: Seq<char>) -> Seq<Seq<char>> {
    split_caps_spec(trim_spec(s))
}

/// Whether the first fragment is a (non-empty) run of digits, which makes
/// it the term's leading multiplier.
pub open spec fn token_has_multiplier(s: Seq<char>) -> bool {
    token_pieces(s)[0].len() >= 1 && all_digit_chars(token_pieces(s)[0])
}

/// The numeric value of the leading multiplier fragment.
pub open spec fn token_mult_value(s: Seq<char>) -> nat {
    digits_value(token_pieces(s)[0])
}

/// The molecule fragments of a term: all fragments but the leading
/// multiplier, when there is one.
pub open spec fn token_fragments(s: Seq<char>) -> Seq<Seq<char>> {
    if token_has_multiplier(s) {
        token_pieces(s).drop_first()
    } else {
        token_pieces(s)
    }
}

/// The term's multiplier: the leading digit run if present, with a
/// missing or zero multiplier defaulting to one.
pub open spec fn token_multiple(s: Seq<char>) -> nat {
    if token_has_multiplier(s) && token_mult_value(s) != 0 {
        token_mult_value(s)
    } else {
        1
    }
}

/// A parsable term string: the multiplier (if any) fits in a `u32`, and
/// at least one well-shaped molecule fragment follows it.
pub open spec fn token_ok(s: Seq<char>) -> bool {
    &&& token_has_multiplier(s) ==> token_mult_value(s) <= u32::MAX
    &&& token_fragments(s).len() >= 1
    &&& forall|k: int|
        0 <= k < token_fragments(s).len() ==> molecule_fragment_ok(#[trigger] token_fragments(s)[k])
}

/// The term a parsable term string denotes.
pub open spec fn token_of(s: Seq<char>) -> TokenModel {
    TokenModel { multiple: token_multiple(s), terms: mols_of_fragments(token_fragments(s)) }
}

/// The error reported for a term string that does not parse.
pub open spec fn token_err(s: Seq<char>) -> Seq<char> {
    if token_has_multiplier(s) && token_mult_value(s) > u32::MAX {
        malformed_msg(token_pieces(s)[0])
    } else if token_fragments(s).len() == 0 {
        "Empty term"@
    } else {
        malformed_msg(first_bad_fragment(token_fragments(s)))
    }
}

/// A well-shaped fragment denotes a well-formed molecule.
pub proof fn lemma_mol_of_fragment_wf(f: Seq<char>)
    requires
        molecule_fragment_ok(f),
    ensures
        mol_of_fragment(f).wf(),
{
    lemma_lower_end(f, 1);
    assert(fragment_name(f)[0] == f[0]);
    assert(forall|i: int| 1 <= i < fragment_name(f).len() ==> is_lower_char(
        #[trigger] fragment_name(f)[i],
    ));
}

/// Trimming never lengthens a string.
pub proof fn lemma_trim_len(s: Seq<char>)
    ensures
        trim_spec(s).len() <= s.len(),
{
    let p = |c: char| !is_space_char(c);
    lemma_scan_to(s, 0, p);
    lemma_trim_hi(s, s.len() as int);
    let b = scan_to(s, 0, p);
    if b < s.len() {
        let h = trim_hi(s, s.len() as int);
        if h <= b {
            assert(is_space_char(s[b]));
        }
    }
}

/// Builds the malformed-fragment error message.
fn malformed_err(frag: &String) -> (e: String)
    ensures
        e@ == malformed_msg(frag@),
{
    let p = "Malformed fragment: ".to_owned();
    p.concat(frag.as_str())
}

impl Token {
    /// Parses one whitespace-trimmed term, e.g. `2H2O`: an optional
    /// leading digit-run multiplier, then one molecule fragment per
    /// uppercase letter. Errs exactly on the term strings in which the
    /// multiplier does not fit a `u32`, no molecule fragment remains, or a
    /// fragment is not a molecule; the message names the first offender.
    pub fn from_string(token_str: String) -> (r: Result<Token, String>)
        ensures
            r is Ok <==> token_ok(token_str@),
            r matches Ok(t) ==> t@ == token_of(token_str@) && t@.wf() && t@.terms.len()
                <= token_str@.len(),
            r matches Err(e) ==> e@ == token_err(token_str@),
    {
        let ghost input = token_str@;
        let trimmed = trim_str(token_str.as_str()).to_owned();
        proof {
            lemma_trim_len(input);
            lemma_split_caps_spec(trimmed@);
            if trimmed@.len() >= 1 {
                lemma_split_caps_count(trimmed@);
            }
        }
        let mut splits = split_caps(trimmed);
        let ghost pieces = token_pieces(input);
        proof {
            assert(string_views(splits@) == pieces);
            assert(splits@.len() == pieces.len());
            assert(splits@[0]@ == pieces[0]);
        }
        let mut multiple: u32 = 1;
        let first_len = splits[0].as_str().unicode_len();
        let has_mult = first_len > 0 && str_all_digits(splits[0].as_str());
        proof {
            assert(has_mult == token_has_multiplier(input));
        }
        if has_mult {
            let first = &splits[0];
            proof {
                assert(first@.subrange(0, first_len as int) =~= pieces[0]);
            }
            match crate::numerals::parse_digits(first.as_str(), 0, first_len) {
                Some(v) => {
                    multiple = if v == 0 {
                        1
                    } else {
                        v
                    };
                    let _ = splits.remove(0);
                    proof {
                        assert(string_views(splits@) =~= pieces.drop_first());
                    }
                },
                None => {
                    let e = malformed_err(&splits[0]);
                    return Err(e);
                },
            }
        }
        let ghost frags = token_fragments(input);
        proof {
            assert(string_views(splits@) == frags);
            assert(multiple as nat == token_multiple(input));
        }
        if splits.len() == 0 {
            return Err("Empty term".to_owned());
        }
        let mut terms: Vec<Molecule> = Vec::new();
        let mut k: usize = 0;
        while k < splits.len()
            invariant
                0 <= k <= splits.len(),
                input == token_str@,
                string_views(splits@) == frags,
                frags == token_fragments(input),
                frags.len() >= 1,
                multiple as nat == token_multiple(input),
                token_has_multiplier(input) ==> token_mult_value(input) <= u32::MAX,
                1 <= multiple,
                forall|j: int| 0 <= j < k ==> molecule_fragment_ok(#[trigger] frags[j]),
                mol_views(terms@) == mols_of_fragments(frags.take(k as int)),
            decreases splits.len() - k,
        {
            proof {
                assert(splits@[k as int]@ == frags[k as int]);
            }
            match Molecule::from_string(&splits[k]) {
                Some(m) => {
                    proof {
                        assert(m@ == mol_of_fragment(frags[k as int]));
                    }
                    let ghost mv = m@;
                    terms.push(m);
                    proof {
                        assert(mol_views(terms@) =~= mols_of_fragments(frags.take(k as int)).push(
                            mv,
                        ));
                        assert(mols_of_fragments(frags.take(k + 1)) =~= mols_of_fragments(
                            frags.take(k as int),
                        ).push(mol_of_fragment(frags[k as int])));
                    }
                },
                None => {
                    proof {
                        lemma_first_bad(frags, k as int);
                    }
                    let e = malformed_err(&splits[k]);
                    return Err(e);
                },
            }
            k = k + 1;
        }
        proof {
            assert(frags.take(frags.len() as int) =~= frags);
            assert forall|i: int| 0 <= i < frags.len() implies mol_of_fragment(
                #[trigger] frags[i],
            ).wf() by {
                lemma_mol_of_fragment_wf(frags[i]);
            }
            assert(token_of(input).wf());
        }
        Ok(Token { multiple, terms })
    }
}

// ---------------------------------------------------------------------------
// Sides and equations
// ---------------------------------------------------------------------------

/// The pieces of `s` between its `+` characters.
pub open spec fn plus_split(s: Seq<char>) -> Seq<Seq<char>>
    decreases s.len(),
{
    let p = scan_to(s, 0, |c: char| c == '+');
    if 0 <= p < s.len() {
        seq![s.take(p)] + plus_split(s.skip(p + 1))
    } else {
        seq![s]
    }
}

/// The terms denoted by a sequence of term strings.
pub open spec fn tokens_of_strs(ps: Seq<Seq<char>>) -> Seq<TokenModel> {
    ps.map_values(|t: Seq<char>| token_of(t))
}

/// Whether every `+`-separated term string of a side parses.
pub open spec fn side_token_ok(s: Seq<char>) -> bool {
    forall|k: int| 0 <= k < plus_split(s).len() ==> token_ok(#[trigger] plus_split(s)[k])
}

/// The terms of one side of an equation.
pub open spec fn side_of(s: Seq<char>) -> Seq<TokenModel> {
    tokens_of_strs(plus_split(s))
}

/// The first term string of `ps` that does not parse.
pub open spec fn first_bad_token(ps: Seq<Seq<char>>) -> Seq<char>
    decreases ps.len(),
{
    if ps.len() == 0 {
        Seq::<char>::empty()
    } else if !token_ok(ps[0]) {
        ps[0]
    } else {
        first_bad_token(ps.drop_first())
    }
}

/// When everything before `k` parses and `ps[k]` does not, then `ps[k]`
/// is the first bad term string.
pub proof fn lemma_first_bad_token(ps: Seq<Seq<char>>, k: int)
    requires
        0 <= k < ps.len(),
        forall|j: int| 0 <= j < k ==> token_ok(#[trigger] ps[j]),
        !token_ok(ps[k]),
    ensures
        first_bad_token(ps) == ps[k],
    decreases k,
{
    if k > 0 {
        lemma_first_bad_token(ps.drop_first(), k - 1);
    }
}

/// The error reported for a side whose terms do not all parse.
pub open spec fn side_err(s: Seq<char>) -> Seq<char> {
    token_err(first_bad_token(plus_split(s)))
}

/// A parsable term string has at most one molecule per input character.
pub proof fn lemma_token_terms_bound(s: Seq<char>)
    requires
        token_ok(s),
    ensures
        1 <= token_of(s).terms.len() <= s.len(),
{
    lemma_trim_len(s);
    lemma_split_caps_spec(trim_spec(s));
    if trim_spec(s).len() == 0 {
        assert(token_pieces(s) =~= seq![trim_spec(s)]);
        assert(token_pieces(s)[0].len() == 0);
        assert(!token_has_multiplier(s));
        assert(!molecule_fragment_ok(token_fragments(s)[0]));
    } else {
        lemma_split_caps_count(trim_spec(s));
    }
}

/// A parsable side has at most one (term, molecule) pair per input
/// character.
pub proof fn lemma_side_pairs_bound(s: Seq<char>)
    requires
        side_token_ok(s),
    ensures
        side_pairs(side_of(s)) <= s.len(),
    decreases s.len(),
{
    let p = scan_to(s, 0, |c: char| c == '+');
    lemma_scan_to(s, 0, |c: char| c == '+');
    if 0 <= p < s.len() {
        let rest = s.skip(p + 1);
        assert(plus_split(s)[0] == s.take(p));
        assert(plus_split(s).drop_first() =~= plus_split(rest));
        assert forall|k: int| 0 <= k < plus_split(rest).len() implies token_ok(
            #[trigger] plus_split(rest)[k],
        ) by {
            assert(plus_split(rest)[k] == plus_split(s)[k + 1]);
        }
        lemma_side_pairs_bound(rest);
        lemma_token_terms_bound(s.take(p));
        assert(side_of(s).drop_first() =~= side_of(rest));
        assert(side_pairs(side_of(s)) == token_of(s.take(p)).terms.len() + side_pairs(
            side_of(rest),
        ));
    } else {
        assert(plus_split(s) =~= seq![s]);
        assert(plus_split(s)[0] == s);
        lemma_token_terms_bound(s);
        assert(side_of(s).len() == 1);
        assert(side_of(s)[0] == token_of(s));
        assert(side_of(s).drop_first() =~= Seq::<TokenModel>::empty());
        assert(side_pairs(Seq::<TokenModel>::empty()) == 0);
        assert(side_pairs(side_of(s)) == token_of(s).terms.len());
    }
}

/// Whether the character at position `i` is `+`.
fn plus_at(s: &str, i: usize) -> (r: bool)
    requires
        i < s@.len(),
    ensures
        r == (s@[i as int] == '+'),
{
    let c = s.get_char(i);
    c == '+'
}

/// Splits a side on its `+` characters.
fn split_on_plus(s: &str) -> (r: Vec<String>)
    ensures
        string_views(r@) == plus_split(s@),
    decreases s@.len(),
{
    let n = s.unicode_len();
    proof {
        lemma_scan_to(s@, 0, |c: char| c == '+');
    }
    let mut p: usize = 0;
    while p < n && !plus_at(s, p)
        invariant
            0 <= p <= n,
            n == s@.len(),
            forall|j: int| 0 <= j < p ==> s@[j] != '+',
        decreases n - p,
    {
        p = p + 1;
    }
    proof {
        let pr = |c: char| c == '+';
        if p < scan_to(s@, 0, pr) {
            assert(pr(s@[p as int]));
        }
        if scan_to(s@, 0, pr) < p {
            assert(!pr(s@[scan_to(s@, 0, pr)]));
        }
        assert(p == scan_to(s@, 0, pr));
    }
    if p >= n {
        let mut r: Vec<String> = Vec::new();
        r.push(s.to_owned());
        proof {
            assert(string_views(r@) =~= plus_split(s@));
        }
        r
    } else {
        let head = s.substring_char(0, p).to_owned();
        let rest = s.substring_char(p + 1, n);
        proof {
            assert(head@ =~= s@.take(p as int));
            assert(rest@ =~= s@.skip(p + 1));
        }
        let mut r = split_on_plus(rest);
        r.insert(0, head);
        proof {
            assert(string_views(r@) =~= plus_split(s@));
        }
        r
    }
}

/// Length of the equation separator starting at position `i`: `=` (one),
/// `->` (two) or `-->` (three) — or zero when none starts there.
pub open spec fn sep_len_at(s: Seq<char>, i: int) -> int {
    if 0 <= i < s.len() && s[i] == '=' {
        1
    } else if 0 <= i && i + 2 <= s.len() && s[i] == '-' && s[i + 1] == '>' {
        2
    } else if 0 <= i && i + 3 <= s.len() && s[i] == '-' && s[i + 1] == '-' && s[i + 2] == '>' {
        3
    } else {
        0
    }
}

/// First position at or after `i` where a separator starts, or the length.
pub open spec fn sep_pos(s: Seq<char>, i: int) -> int
    decreases s.len() - i,
{
    if i < s.len() && sep_len_at(s, i) == 0 {
        sep_pos(s, i + 1)
    } else {
        i
    }
}

/// Characterizes [`sep_pos`].
pub proof fn lemma_sep_pos(s: Seq<char>, i: int)
    requires
        0 <= i <= s.len(),
    ensures
        i <= sep_pos(s, i) <= s.len(),
        forall|j: int| i <= j < sep_pos(s, i) ==> sep_len_at(s, j) == 0,
        sep_pos(s, i) < s.len() ==> sep_len_at(s, sep_pos(s, i)) >= 1,
    decreases s.len() - i,
{
    if i < s.len() && sep_len_at(s, i) == 0 {
        lemma_sep_pos(s, i + 1);
    }
}

/// The pieces of an input line between its equation separators.
pub open spec fn sep_split(s: Seq<char>) -> Seq<Seq<char>>
    decreases s.len(),
{
    let p = sep_pos(s, 0);
    if 0 <= p < s.len() && sep_len_at(s, p) >= 1 {
        seq![s.take(p)] + sep_split(s.skip(p + sep_len_at(s, p)))
    } else {
        seq![s]
    }
}

/// No piece of [`sep_split`] is longer than the input.
pub proof fn lemma_sep_split_piece_len(s: Seq<char>)
    ensures
        sep_split(s).len() >= 1,
        forall|k: int| 0 <= k < sep_split(s).len() ==> (#[trigger] sep_split(s)[k]).len()
            <= s.len(),
    decreases s.len(),
{
    let p = sep_pos(s, 0);
    lemma_sep_pos(s, 0);
    if 0 <= p < s.len() && sep_len_at(s, p) >= 1 {
        let rest = s.skip(p + sep_len_at(s, p));
        lemma_sep_split_piece_len(rest);
        assert forall|k: int| 0 <= k < sep_split(s).len() implies (#[trigger] sep_split(
            s,
        )[k]).len() <= s.len() by {
            if k >= 1 {
                assert(sep_split(s)[k] == sep_split(rest)[k - 1]);
            }
        }
    }
}

/// Parsability of a whole input line: exactly two sides, both parsable.
pub open spec fn equation_ok(s: Seq<char>) -> bool {
    &&& sep_split(s).len() == 2
    &&& side_token_ok(sep_split(s)[0])
    &&& side_token_ok(sep_split(s)[1])
}

/// The equation a parsable input line denotes.
pub open spec fn equation_of(s: Seq<char>) -> EquationModel {
    EquationModel { lhs: side_of(sep_split(s)[0]), rhs: side_of(sep_split(s)[1]) }
}

/// The error reported for an input line that does not parse.
pub open spec fn equation_err(s: Seq<char>) -> Seq<char> {
    if sep_split(s).len() < 2 {
        "Too few sides"@
    } else if sep_split(s).len() > 2 {
        "Too many sides"@
    } else if !side_token_ok(sep_split(s)[0]) {
        side_err(sep_split(s)[0])
    } else {
        side_err(sep_split(s)[1])
    }
}

/// Length of the separator starting at position `i`, executably.
fn sep_len_here(s: &str, i: usize, n: usize) -> (l: usize)
    requires
        i < n,
        n == s@.len(),
    ensures
        l == sep_len_at(s@, i as int),
{
    let c = s.get_char(i);
    if c == '=' {
        return 1;
    }
    if c == '-' && i + 1 < n {
        let c1 = s.get_char(i + 1);
        if c1 == '>' {
            return 2;
        }
        if c1 == '-' && i + 2 < n {
            let c2 = s.get_char(i + 2);
            if c2 == '>' {
                return 3;
            }
        }
    }
    0
}

/// Splits an input line on its equation separators `=`, `->` and `-->`.
fn split_on_sep(s: &str) -> (r: Vec<String>)
    ensures
        string_views(r@) == sep_split(s@),
    decreases s@.len(),
{
    let n = s.unicode_len();
    proof {
        lemma_sep_pos(s@, 0);
    }
    let mut p: usize = 0;
    while p < n && sep_len_here(s, p, n) == 0
        invariant
            0 <= p <= n,
            n == s@.len(),
            forall|j: int| 0 <= j < p ==> sep_len_at(s@, j) == 0,
        decreases n - p,
    {
        p = p + 1;
    }
    let l: usize = if p < n {
        sep_len_here(s, p, n)
    } else {
        0
    };
    proof {
        if p < sep_pos(s@, 0) {
            assert(sep_len_at(s@, p as int) >= 1);
        }
        if sep_pos(s@, 0) < p {
            assert(sep_len_at(s@, sep_pos(s@, 0)) == 0);
        }
        assert(p == sep_pos(s@, 0));
    }
    if p >= n {
        let mut r: Vec<String> = Vec::new();
        r.push(s.to_owned());
        proof {
            assert(string_views(r@) =~= sep_split(s@));
        }
        r
    } else {
        let head = s.substring_char(0, p).to_owned();
        let rest = s.substring_char(p + l, n);
        proof {
            assert(head@ =~= s@.take(p as int));
            assert(rest@ =~= s@.skip(p + sep_len_at(s@, p as int)));
        }
        let mut r = split_on_sep(rest);
        r.insert(0, head);
        proof {
            assert(string_views(r@) =~= sep_split(s@));
        }
        r
    }
}

impl Equation {
    /// Parses one side of an equation: its `+`-separated term strings in
    /// order. Errs exactly when some term string does not parse, with
    /// that term's error.
    pub fn parse_side(s: &str) -> (r: Result<Vec<Token>, String>)
        ensures
            r is Ok <==> side_token_ok(s@),
            r matches Ok(v) ==> token_views(v@) == side_of(s@) && side_wf(side_of(s@))
                && side_pairs(side_of(s@)) <= s@.len(),
            r matches Err(e) ==> e@ == side_err(s@),
    {
        let pieces = split_on_plus(s);
        let ghost strs = plus_split(s@);
        let mut tokens: Vec<Token> = Vec::new();
        let mut k: usize = 0;
        while k < pieces.len()
            invariant
                0 <= k <= pieces.len(),
                string_views(pieces@) == strs,
                strs == plus_split(s@),
                forall|j: int| 0 <= j < k ==> token_ok(#[trigger] strs[j]),
                forall|j: int| 0 <= j < k ==> token_of(#[trigger] strs[j]).wf(),
                token_views(tokens@) == tokens_of_strs(strs.take(k as int)),
            decreases pieces.len() - k,
        {
            proof {
                assert(pieces@[k as int]@ == strs[k as int]);
            }
            match Token::from_string(pieces[k].clone()) {
                Ok(t) => {
                    let ghost tv = t@;
                    tokens.push(t);
                    proof {
                        assert(token_views(tokens@) =~= tokens_of_strs(strs.take(k as int)).push(
                            tv,
                        ));
                        assert(tokens_of_strs(strs.take(k + 1)) =~= tokens_of_strs(
                            strs.take(k as int),
                        ).push(token_of(strs[k as int])));
                    }
                },
                Err(e) => {
                    proof {
                        lemma_first_bad_token(strs, k as int);
                    }
                    return Err(e);
                },
            }
            k = k + 1;
        }
        proof {
            assert(strs.take(strs.len() as int) =~= strs);
            lemma_side_pairs_bound(s@);
        }
        Ok(tokens)
    }

    /// Parses a whole input line into an equation. The line must hold
    /// exactly one separator (`=`, `->` or `-->`): none gives the
    /// too-few-sides error, several the too-many-sides error; and both
    /// sides must parse, else the first failing term's error is returned.
    pub fn parse_str(s: &str) -> (r: Result<Equation, String>)
        ensures
            r is Ok <==> equation_ok(s@),
            r matches Ok(eq) ==> eq@ == equation_of(s@) && eq@.wf(),
            r matches Err(e) ==> e@ == equation_err(s@),
    {
        let n = s.unicode_len();
        let sides = split_on_sep(s);
        proof {
            lemma_sep_split_piece_len(s@);
            assert(sides@.len() == sep_split(s@).len());
        }
        if sides.len() < 2 {
            return Err("Too few sides".to_owned());
        }
        if sides.len() > 2 {
            return Err("Too many sides".to_owned());
        }
        proof {
            assert(sides@[0]@ == sep_split(s@)[0]);
            assert(sides@[1]@ == sep_split(s@)[1]);
        }
        let lhs = match Equation::parse_side(sides[0].as_str()) {
            Ok(v) => v,
            Err(e) => {
                return Err(e);
            },
        };
        let rhs = match Equation::parse_side(sides[1].as_str()) {
            Ok(v) => v,
            Err(e) => {
                return Err(e);
            },
        };
        Ok(Equation { lhs, rhs })
    }
}

// ---------------------------------------------------------------------------
// Aggregation and the balance check
// ---------------------------------------------------------------------------

/// Total count of atoms named `name` in a molecule list.
pub open spec fn mols_total(mols: Seq<MoleculeModel>, name: Seq<char>) -> nat
    decreases mols.len(),
{
    if mols.len() == 0 {
        0
    } else {
        (if mols[0].name == name {
            mols[0].multiple
        } else {
            0
        }) + mols_total(mols.drop_first(), name)
    }
}

/// Contribution of one term to the count of atoms named `name`: its
/// multiplier times the atoms its molecules carry.
pub open spec fn token_total(t: TokenModel, name: Seq<char>) -> nat {
    t.multiple * mols_total(t.terms, name)
}

/// Total count of atoms named `name` on one side.
pub open spec fn side_total(side: Seq<TokenModel>, name: Seq<char>) -> nat
    decreases side.len(),
{
    if side.len() == 0 {
        0
    } else {
        token_total(side[0], name) + side_total(side.drop_first(), name)
    }
}

/// Two sides balance when they carry the same total for every name.
pub open spec fn balanced(lhs: Seq<TokenModel>, rhs: Seq<TokenModel>) -> bool {
    forall|n: Seq<char>| (#[trigger] side_total(lhs, n)) == side_total(rhs, n)
}

/// Extending a molecule prefix by one molecule adds its contribution.
pub proof fn lemma_mols_total_take_succ(mols: Seq<MoleculeModel>, name: Seq<char>, j: int)
    requires
        0 <= j < mols.len(),
    ensures
        mols_total(mols.take(j + 1), name) == mols_total(mols.take(j), name) + (if mols[j].name
            == name {
            mols[j].multiple
        } else {
            0
        }),
    decreases j,
{
    if j == 0 {
        assert(mols.take(1).drop_first() =~= Seq::<MoleculeModel>::empty());
        assert(mols.take(0) =~= Seq::<MoleculeModel>::empty());
        assert(mols_total(Seq::<MoleculeModel>::empty(), name) == 0);
    } else {
        lemma_mols_total_take_succ(mols.drop_first(), name, j - 1);
        assert(mols.take(j + 1).drop_first() =~= mols.drop_first().take(j));
        assert(mols.take(j).drop_first() =~= mols.drop_first().take(j - 1));
    }
}

/// Extending a side prefix by one term adds that term's contribution.
pub proof fn lemma_side_total_take_succ(side: Seq<TokenModel>, name: Seq<char>, i: int)
    requires
        0 <= i < side.len(),
    ensures
        side_total(side.take(i + 1), name) == side_total(side.take(i), name) + token_total(
            side[i],
            name,
        ),
    decreases i,
{
    if i == 0 {
        assert(side.take(1).drop_first() =~= Seq::<TokenModel>::empty());
        assert(side.take(0) =~= Seq::<TokenModel>::empty());
        assert(side_total(Seq::<TokenModel>::empty(), name) == 0);
    } else {
        lemma_side_total_take_succ(side.drop_first(), name, i - 1);
        assert(side.take(i + 1).drop_first() =~= side.drop_first().take(i));
        assert(side.take(i).drop_first() =~= side.drop_first().take(i - 1));
    }
}

/// A prefix never carries more atoms than the whole side.
pub proof fn lemma_side_total_take_le(side: Seq<TokenModel>, name: Seq<char>, i: int)
    requires
        0 <= i <= side.len(),
    ensures
        side_total(side.take(i), name) <= side_total(side, name),
    decreases side.len() - i,
{
    if i == side.len() {
        assert(side.take(i) =~= side);
    } else {
        lemma_side_total_take_succ(side, name, i);
        lemma_side_total_take_le(side, name, i + 1);
    }
}

/// A molecule prefix never carries more atoms than the whole list.
pub proof fn lemma_mols_total_take_le(mols: Seq<MoleculeModel>, name: Seq<char>, j: int)
    requires
        0 <= j <= mols.len(),
    ensures
        mols_total(mols.take(j), name) <= mols_total(mols, name),
    decreases mols.len() - j,
{
    if j == mols.len() {
        assert(mols.take(j) =~= mols);
    } else {
        lemma_mols_total_take_succ(mols, name, j);
        lemma_mols_total_take_le(mols, name, j + 1);
    }
}

/// A molecule list of well-formed molecules carries at most
/// `u32::MAX` atoms of a name per molecule.
pub proof fn lemma_mols_total_bound(mols: Seq<MoleculeModel>, name: Seq<char>)
    requires
        forall|i: int| 0 <= i < mols.len() ==> (#[trigger] mols[i]).wf(),
    ensures
        mols_total(mols, name) <= mols.len() * 0xFFFF_FFFF,
    decreases mols.len(),
{
    if mols.len() > 0 {
        assert(mols[0].wf());
        lemma_mols_total_bound(mols.drop_first(), name);
    }
}

/// A side of well-formed terms carries at most `u32::MAX * u32::MAX`
/// atoms of a name per (term, molecule) pair.
pub proof fn lemma_side_total_bound(side: Seq<TokenModel>, name: Seq<char>)
    requires
        forall|i: int| 0 <= i < side.len() ==> (#[trigger] side[i]).wf(),
    ensures
        side_total(side, name) <= side_pairs(side) * 0xFFFF_FFFE_0000_0001,
    decreases side.len(),
{
    if side.len() > 0 {
        let t = side[0];
        assert(t.wf());
        lemma_mols_total_bound(t.terms, name);
        assert(token_total(t, name) <= t.terms.len() * 0xFFFF_FFFE_0000_0001) by (nonlinear_arith)
            requires
                t.multiple <= 0xFFFF_FFFF,
                mols_total(t.terms, name) <= t.terms.len() * 0xFFFF_FFFF,
                token_total(t, name) == t.multiple * mols_total(t.terms, name),
        ;
        lemma_side_total_bound(side.drop_first(), name);
    }
}

/// Count of atoms per name recorded in an entry list; the first entry of
/// the name speaks for it.
pub open spec fn entries_count(es: Seq<(String, u128)>, name: Seq<char>) -> nat
    decreases es.len(),
{
    if es.len() == 0 {
        0
    } else if es[0].0@ == name {
        es[0].1 as nat
    } else {
        entries_count(es.drop_first(), name)
    }
}

/// A map from element names to their total atom counts on one side.
pub struct ElementCounts {
    entries: Vec<(String, u128)>,
}

impl ElementCounts {
    /// The count recorded for `name`; zero when absent.
    pub closed spec fn count_of(&self, name: Seq<char>) -> nat {
        entries_count(self.entries@, name)
    }

    /// Each name holds at most one entry.
    pub closed spec fn wf(&self) -> bool {
        forall|i: int, j: int|
            0 <= i < j < self.entries@.len() ==> (#[trigger] self.entries@[i]).0@ != (
            #[trigger] self.entries@[j]).0@
    }

    /// The number of names recorded.
    pub closed spec fn num_names(&self) -> nat {
        self.entries@.len()
    }

    /// The number of distinct names recorded.
    pub fn len(&self) -> (n: usize)
        ensures
            n == self.num_names(),
    {
        self.entries.len()
    }

    /// Looks a name's count up; absent names count zero.
    pub fn get(&self, name: &String) -> (r: u128)
        ensures
            r == self.count_of(name@),
    {
        let n = self.entries.len();
        proof {
            assert(self.entries@.skip(0) =~= self.entries@);
        }
        let mut i: usize = 0;
        while i < n
            invariant
                0 <= i <= n,
                n == self.entries@.len(),
                forall|j: int| 0 <= j < i ==> (#[trigger] self.entries@[j]).0@ != name@,
                entries_count(self.entries@, name@) == entries_count(
                    self.entries@.skip(i as int),
                    name@,
                ),
            decreases n - i,
        {
            let hit = self.entries[i].0.eq(name);
            proof {
                assert(self.entries@.skip(i as int)[0] == self.entries@[i as int]);
            }
            if hit {
                return self.entries[i].1;
            }
            proof {
                assert(self.entries@.skip(i as int).drop_first() =~= self.entries@.skip(i + 1));
            }
            i = i + 1;
        }
        proof {
            assert(self.entries@.skip(n as int) =~= Seq::<(String, u128)>::empty());
        }
        0
    }

    /// Adds `amount` atoms to `name`'s count, creating the entry if absent.
    fn add_count(&mut self, name: String, amount: u128)
        requires
            old(self).wf(),
            old(self).count_of(name@) + amount <= u128::MAX,
        ensures
            final(self).wf(),
            final(self).count_of(name@) == old(self).count_of(name@) + amount,
            forall|m: Seq<char>| m != name@ ==> final(self).count_of(m) == old(self).count_of(m),
    {
        let ghost es0 = self.entries@;
        let n = self.entries.len();
        let mut i: usize = 0;
        while i < n
            invariant
                0 <= i <= n,
                n == es0.len(),
                self.entries@ == es0,
                es0 == old(self).entries@,
                entries_count(es0, name@) + amount <= u128::MAX,
                forall|a: int, b: int|
                    0 <= a < b < es0.len() ==> (#[trigger] es0[a]).0@ != (#[trigger] es0[b]).0@,
                forall|j: int| 0 <= j < i ==> (#[trigger] es0[j]).0@ != name@,
            decreases n - i,
        {
            let hit = self.entries[i].0.eq(&name);
            if hit {
                proof {
                    lemma_entries_count_at(es0, i as int);
                }
                let cur = self.entries[i].1;
                self.entries[i].1 = cur + amount;
                proof {
                    let entry2 = (es0[i as int].0, (es0[i as int].1 + amount) as u128);
                    assert(self.entries@ =~= es0.update(i as int, entry2));
                    lemma_entries_count_update(es0, i as int, amount as nat);
                    assert forall|a: int, b: int|
                        0 <= a < b < self.entries@.len() implies (#[trigger] self.entries@[a]).0@
                        != (#[trigger] self.entries@[b]).0@ by {
                        assert(self.entries@[a].0 == es0[a].0);
                        assert(self.entries@[b].0 == es0[b].0);
                    }
                }
                return ;
            }
            i = i + 1;
        }
        self.entries.push((name, amount));
        proof {
            lemma_entries_count_push(es0, self.entries@[n as int], amount as nat);
            assert forall|a: int, b: int|
                0 <= a < b < self.entries@.len() implies (#[trigger] self.entries@[a]).0@ != (
            #[trigger] self.entries@[b]).0@ by {
                if b < n {
                    assert(self.entries@[a] == es0[a]);
                    assert(self.entries@[b] == es0[b]);
                } else {
                    assert(self.entries@[a] == es0[a]);
                }
            }
        }
    }
}

/// With distinct names, the entry of a name states its count.
pub proof fn lemma_entries_count_at(es: Seq<(String, u128)>, i: int)
    requires
        0 <= i < es.len(),
        forall|a: int, b: int|
            0 <= a < b < es.len() ==> (#[trigger] es[a]).0@ != (#[trigger] es[b]).0@,
    ensures
        entries_count(es, es[i].0@) == es[i].1,
    decreases i,
{
    if i > 0 {
        assert(es[0].0@ != es[i].0@);
        lemma_entries_count_at(es.drop_first(), i - 1);
    }
}

/// A name with a non-zero count has an entry.
pub proof fn lemma_entries_count_pos(es: Seq<(String, u128)>, name: Seq<char>)
    requires
        entries_count(es, name) != 0,
    ensures
        exists|i: int| 0 <= i < es.len() && (#[trigger] es[i]).0@ == name,
    decreases es.len(),
{
    if es.len() > 0 && es[0].0@ != name {
        lemma_entries_count_pos(es.drop_first(), name);
        let w = choose|i: int|
            0 <= i < es.drop_first().len() && (#[trigger] es.drop_first()[i]).0@ == name;
        assert(es[w + 1].0@ == name);
    }
}

/// Updating an entry's count changes only that name's count.
proof fn lemma_entries_count_update(es: Seq<(String, u128)>, i: int, amount: nat)
    requires
        0 <= i < es.len(),
        forall|j: int| 0 <= j < i ==> (#[trigger] es[j]).0@ != es[i].0@,
        es[i].1 + amount <= u128::MAX,
    ensures
        entries_count(es.update(i, (es[i].0, (es[i].1 + amount) as u128)), es[i].0@)
            == entries_count(es, es[i].0@) + amount,
        forall|m: Seq<char>|
            m != es[i].0@ ==> entries_count(
                es.update(i, (es[i].0, (es[i].1 + amount) as u128)),
                m,
            ) == entries_count(es, m),
    decreases i,
{
    let es2 = es.update(i, (es[i].0, (es[i].1 + amount) as u128));
    if i == 0 {
        assert(es2[0].0@ == es[0].0@);
        assert(es2.drop_first() =~= es.drop_first());
    } else {
        lemma_entries_count_update(es.drop_first(), i - 1, amount);
        assert(es2.drop_first() =~= es.drop_first().update(
            i - 1,
            (es[i].0, (es[i].1 + amount) as u128),
        ));
        assert(es2[0] == es[0]);
        assert(es[0].0@ != es[i].0@);
        assert(es.drop_first()[i - 1] == es[i]);
        assert forall|m: Seq<char>| m != es[i].0@ implies entries_count(es2, m) == entries_count(
            es,
            m,
        ) by {
            if es[0].0@ == m {
                assert(entries_count(es2, m) == es2[0].1);
                assert(entries_count(es, m) == es[0].1);
            } else {
                assert(entries_count(es2, m) == entries_count(es2.drop_first(), m));
                assert(entries_count(es, m) == entries_count(es.drop_first(), m));
                assert(entries_count(
                    es.drop_first().update(i - 1, (es[i].0, (es[i].1 + amount) as u128)),
                    m,
                ) == entries_count(es.drop_first(), m));
            }
        }
    }
}

/// Appending a fresh entry records its count and changes no other.
proof fn lemma_entries_count_push(es: Seq<(String, u128)>, entry: (String, u128), amount: nat)
    requires
        entry.1 == amount,
        forall|j: int| 0 <= j < es.len() ==> (#[trigger] es[j]).0@ != entry.0@,
    ensures
        entries_count(es.push(entry), entry.0@) == entries_count(es, entry.0@) + amount,
        forall|m: Seq<char>|
            m != entry.0@ ==> entries_count(es.push(entry), m) == entries_count(es, m),
    decreases es.len(),
{
    if es.len() == 0 {
        assert(es.push(entry)[0] == entry);
        assert(es.push(entry).drop_first() =~= Seq::<(String, u128)>::empty());
        assert(entries_count(Seq::<(String, u128)>::empty(), entry.0@) == 0);
        assert(entries_count(es, entry.0@) == 0);
        assert forall|m: Seq<char>| m != entry.0@ implies entries_count(es.push(entry), m)
            == entries_count(es, m) by {
            assert(entries_count(es.push(entry), m) == entries_count(
                es.push(entry).drop_first(),
                m,
            ));
            assert(entries_count(Seq::<(String, u128)>::empty(), m) == 0);
        }
    } else {
        lemma_entries_count_push(es.drop_first(), entry, amount);
        assert(es.push(entry)[0] == es[0]);
        assert(es.push(entry).drop_first() =~= es.drop_first().push(entry));
        assert forall|m: Seq<char>| m != entry.0@ implies entries_count(es.push(entry), m)
            == entries_count(es, m) by {
            if es[0].0@ != m {
                assert(entries_count(es.push(entry), m) == entries_count(
                    es.push(entry).drop_first(),
                    m,
                ));
                assert(entries_count(es.drop_first().push(entry), m) == entries_count(
                    es.drop_first(),
                    m,
                ));
            }
        }
    }
}

/// Whether two count maps record the same total for every name.
fn counts_equal(a: &ElementCounts, b: &ElementCounts) -> (r: bool)
    requires
        a.wf(),
        b.wf(),
    ensures
        r == forall|n: Seq<char>| (#[trigger] a.count_of(n)) == b.count_of(n),
{
    let na = a.entries.len();
    let mut i: usize = 0;
    while i < na
        invariant
            0 <= i <= na,
            na == a.entries@.len(),
            a.wf(),
            b.wf(),
            forall|j: int|
                0 <= j < i ==> b.count_of((#[trigger] a.entries@[j]).0@) == a.entries@[j].1,
        decreases na - i,
    {
        let v = b.get(&a.entries[i].0);
        if v != a.entries[i].1 {
            proof {
                lemma_entries_count_at(a.entries@, i as int);
                assert(a.count_of(a.entries@[i as int].0@) != b.count_of(
                    a.entries@[i as int].0@,
                ));
            }
            return false;
        }
        i = i + 1;
    }
    let nb = b.entries.len();
    let mut k: usize = 0;
    while k < nb
        invariant
            0 <= k <= nb,
            nb == b.entries@.len(),
            na == a.entries@.len(),
            a.wf(),
            b.wf(),
            forall|j: int|
                0 <= j < na ==> b.count_of((#[trigger] a.entries@[j]).0@) == a.entries@[j].1,
            forall|j: int|
                0 <= j < k ==> a.count_of((#[trigger] b.entries@[j]).0@) == b.entries@[j].1,
        decreases nb - k,
    {
        let v = a.get(&b.entries[k].0);
        if v != b.entries[k].1 {
            proof {
                lemma_entries_count_at(b.entries@, k as int);
                assert(a.count_of(b.entries@[k as int].0@) != b.count_of(
                    b.entries@[k as int].0@,
                ));
            }
            return false;
        }
        k = k + 1;
    }
    proof {
        assert forall|n: Seq<char>| (#[trigger] a.count_of(n)) == b.count_of(n) by {
            if a.count_of(n) != 0 {
                lemma_entries_count_pos(a.entries@, n);
                let w = choose|i2: int|
                    0 <= i2 < a.entries@.len() && (#[trigger] a.entries@[i2]).0@ == n;
                lemma_entries_count_at(a.entries@, w);
            } else if b.count_of(n) != 0 {
                lemma_entries_count_pos(b.entries@, n);
                let w = choose|i2: int|
                    0 <= i2 < b.entries@.len() && (#[trigger] b.entries@[i2]).0@ == n;
                lemma_entries_count_at(b.entries@, w);
            }
        }
    }
    true
}

impl Equation {
    /// Aggregates one side into a map from element name to the side's
    /// total atom count: every term contributes its multiplier times each
    /// molecule's count.
    pub fn side_hash(side: &Vec<Token>) -> (r: ElementCounts)
        requires
            forall|i: int| 0 <= i < token_views(side@).len() ==> (#[trigger] token_views(
                side@,
            )[i]).wf(),
            side_pairs(token_views(side@)) < 0x1_0000_0000_0000_0000,
        ensures
            r.wf(),
            forall|n: Seq<char>| (#[trigger] r.count_of(n)) == side_total(token_views(side@), n),
    {
        let ghost ts = token_views(side@);
        let mut r = ElementCounts { entries: Vec::new() };
        proof {
            assert(r.wf());
            assert(forall|n: Seq<char>| (#[trigger] r.count_of(n)) == 0);
            assert(ts.take(0) =~= Seq::<TokenModel>::empty());
        }
        let mut i: usize = 0;
        while i < side.len()
            invariant
                0 <= i <= side@.len(),
                ts == token_views(side@),
                forall|i2: int| 0 <= i2 < ts.len() ==> (#[trigger] ts[i2]).wf(),
                side_pairs(ts) < 0x1_0000_0000_0000_0000,
                r.wf(),
                forall|n: Seq<char>| (#[trigger] r.count_of(n)) == side_total(
                    ts.take(i as int),
                    n,
                ),
            decreases side@.len() - i,
        {
            proof {
                assert(ts[i as int] == side@[i as int]@);
            }
            let token = &side[i];
            let tm = token.multiple;
            let nm = token.terms.len();
            let ghost mols = ts[i as int].terms;
            proof {
                assert(mols.take(0) =~= Seq::<MoleculeModel>::empty());
                assert forall|n: Seq<char>| ts[i as int].multiple * mols_total(mols.take(0), n)
                    == 0 by {
                    assert(mols_total(mols.take(0), n) == 0);
                }
            }
            let mut j: usize = 0;
            while j < nm
                invariant
                    0 <= j <= nm,
                    0 <= i < ts.len(),
                    nm == mols.len(),
                    ts == token_views(side@),
                    i < side@.len(),
                    token == &side@[i as int],
                    ts[i as int] == side@[i as int]@,
                    mols == ts[i as int].terms,
                    tm == token.multiple,
                    tm as nat == ts[i as int].multiple,
                    forall|i2: int| 0 <= i2 < ts.len() ==> (#[trigger] ts[i2]).wf(),
                    side_pairs(ts) < 0x1_0000_0000_0000_0000,
                    r.wf(),
                    forall|n: Seq<char>| (#[trigger] r.count_of(n)) == side_total(
                        ts.take(i as int),
                        n,
                    ) + ts[i as int].multiple * mols_total(mols.take(j as int), n),
                decreases nm - j,
            {
                let m = &token.terms[j];
                proof {
                    assert(mols[j as int] == token.terms@[j as int]@);
                    assert(mols[j as int].wf());
                    assert((tm as u128) * (m.multiple as u128) < 0x1_0000_0000_0000_0000u128)
                        by (nonlinear_arith)
                        requires
                            tm <= 0xFFFF_FFFFu32,
                            m.multiple <= 0xFFFF_FFFFu32,
                    ;
                }
                let amount: u128 = (tm as u128) * (m.multiple as u128);
                proof {
                    let n0 = m.name@;
                    lemma_mols_total_take_succ(mols, n0, j as int);
                    lemma_mols_total_take_le(mols, n0, j + 1);
                    lemma_side_total_take_succ(ts, n0, i as int);
                    lemma_side_total_take_le(ts, n0, i as int + 1);
                    lemma_side_total_bound(ts, n0);
                    assert(ts[i as int].multiple * mols_total(mols.take(j as int), n0) + amount
                        == ts[i as int].multiple * mols_total(mols.take(j + 1), n0))
                        by (nonlinear_arith)
                        requires
                            amount == (tm as u128) * (m.multiple as u128),
                            tm as nat == ts[i as int].multiple,
                            mols_total(mols.take(j + 1), n0) == mols_total(
                                mols.take(j as int),
                                n0,
                            ) + m.multiple,
                    ;
                    assert(ts[i as int].multiple * mols_total(mols.take(j + 1), n0) <= ts[
                        i as int
                    ].multiple * mols_total(mols, n0)) by (nonlinear_arith)
                        requires
                            mols_total(mols.take(j + 1), n0) <= mols_total(mols, n0),
                    ;
                    assert(side_pairs(ts) * 0xFFFF_FFFE_0000_0001 <= 0xFFFF_FFFF_FFFF_FFFFu128
                        * 0xFFFF_FFFE_0000_0001);
                    assert(r.count_of(n0) + amount <= u128::MAX);
                }
                r.add_count(m.name.clone(), amount);
                proof {
                    assert forall|n: Seq<char>| (#[trigger] r.count_of(n)) == side_total(
                        ts.take(i as int),
                        n,
                    ) + ts[i as int].multiple * mols_total(mols.take(j + 1), n) by {
                        if n != m.name@ {
                            lemma_mols_total_take_succ(mols, n, j as int);
                        }
                    }
                }
                j = j + 1;
            }
            proof {
                assert(mols.take(nm as int) =~= mols);
                assert forall|n: Seq<char>| (#[trigger] r.count_of(n)) == side_total(
                    ts.take(i + 1),
                    n,
                ) by {
                    lemma_side_total_take_succ(ts, n, i as int);
                }
            }
            i = i + 1;
        }
        proof {
            assert(ts.take(ts.len() as int) =~= ts);
        }
        r
    }

    /// Whether the equation is balanced: both sides carry the same total
    /// atom count for every element name.
    pub fn is_balanced(&self) -> (r: bool)
        requires
            self@.wf(),
        ensures
            r == balanced(self@.lhs, self@.rhs),
    {
        let lhs_map = Equation::side_hash(&self.lhs);
        let rhs_map = Equation::side_hash(&self.rhs);
        let r = counts_equal(&lhs_map, &rhs_map);
        proof {
            if r {
                assert forall|n: Seq<char>| (#[trigger] side_total(self@.lhs, n)) == side_total(
                    self@.rhs,
                    n,
                ) by {
                    assert(lhs_map.count_of(n) == rhs_map.count_of(n));
                }
            } else {
                let w = choose|n: Seq<char>|
                    (#[trigger] lhs_map.count_of(n)) != rhs_map.count_of(n);
                assert(side_total(self@.lhs, w) != side_total(self@.rhs, w));
            }
        }
        r
    }
}

// ---------------------------------------------------------------------------
// Rendering
// ---------------------------------------------------------------------------

/// The Unicode subscript form of a digit character.
pub open spec fn subscript_char(c: char) -> char {
    if c == '0' {
        '₀'
    } else if c == '1' {
        '₁'
    } else if c == '2' {
        '₂'
    } else if c == '3' {
        '₃'
    } else if c == '4' {
        '₄'
    } else if c == '5' {
        '₅'
    } else if c == '6' {
        '₆'
    } else if c == '7' {
        '₇'
    } else if c == '8' {
        '₈'
    } else {
        '₉'
    }
}

/// A digit string written in subscript digits.
pub open spec fn subscript_digits(s: Seq<char>) -> Seq<char> {
    s.map_values(|c: char| subscript_char(c))
}

/// The text of a molecule: its name, then its count in subscript digits
/// unless the count is one.
pub open spec fn mol_render(m: MoleculeModel) -> Seq<char> {
    if m.multiple == 1 {
        m.name
    } else {
        m.name + subscript_digits(render_digits(m.multiple))
    }
}

/// The concatenated text of a molecule list.
pub open spec fn mols_render(mols: Seq<MoleculeModel>) -> Seq<char>
    decreases mols.len(),
{
    if mols.len() == 0 {
        Seq::<char>::empty()
    } else {
        mol_render(mols[0]) + mols_render(mols.drop_first())
    }
}

/// The text of a term: its multiplier in ordinary digits unless it is
/// one, then its molecules.
pub open spec fn token_render(t: TokenModel) -> Seq<char> {
    (if t.multiple == 1 {
        Seq::<char>::empty()
    } else {
        render_digits(t.multiple)
    }) + mols_render(t.terms)
}

/// The text of a side: its terms joined by ` + `.
pub open spec fn side_render(ts: Seq<TokenModel>) -> Seq<char>
    decreases ts.len(),
{
    if ts.len() == 0 {
        Seq::<char>::empty()
    } else if ts.len() == 1 {
        token_render(ts[0])
    } else {
        token_render(ts[0]) + " + "@ + side_render(ts.drop_first())
    }
}

/// The text of an equation: its sides joined by ` -> `.
pub open spec fn equation_render(e: EquationModel) -> Seq<char> {
    side_render(e.lhs) + " -> "@ + side_render(e.rhs)
}

/// Extending a molecule prefix appends that molecule's text.
pub proof fn lemma_mols_render_take_succ(mols: Seq<MoleculeModel>, j: int)
    requires
        0 <= j < mols.len(),
    ensures
        mols_render(mols.take(j + 1)) == mols_render(mols.take(j)) + mol_render(mols[j]),
    decreases j,
{
    if j == 0 {
        assert(mols.take(1).drop_first() =~= Seq::<MoleculeModel>::empty());
        assert(mols.take(0) =~= Seq::<MoleculeModel>::empty());
        assert(mols.take(1)[0] == mols[0]);
        assert(mols_render(Seq::<MoleculeModel>::empty()) =~= Seq::<char>::empty());
        assert(mol_render(mols[0]) + Seq::<char>::empty() =~= mol_render(mols[0]));
        assert(mols_render(mols.take(1)) =~= mol_render(mols[0]));
        assert(mols_render(mols.take(0)) + mol_render(mols[0]) =~= mol_render(mols[0]));
    } else {
        lemma_mols_render_take_succ(mols.drop_first(), j - 1);
        assert(mols.take(j + 1).drop_first() =~= mols.drop_first().take(j));
        assert(mols.take(j).drop_first() =~= mols.drop_first().take(j - 1));
        assert(mols_render(mols.take(j + 1)) =~= mols_render(mols.take(j)) + mol_render(mols[j]));
    }
}

/// Extending a side prefix of at least one term appends ` + ` and that
/// term's text.
pub proof fn lemma_side_render_take_succ(ts: Seq<TokenModel>, j: int)
    requires
        1 <= j < ts.len(),
    ensures
        side_render(ts.take(j + 1)) == side_render(ts.take(j)) + " + "@ + token_render(ts[j]),
    decreases j,
{
    if j == 1 {
        assert(ts.take(2).drop_first() =~= seq![ts[1]]);
        assert(ts.take(2)[0] == ts[0]);
        assert(ts.take(1)[0] == ts[0]);
        assert(seq![ts[1]].len() == 1 && seq![ts[1]][0] == ts[1]);
        assert(side_render(seq![ts[1]]) == token_render(ts[1]));
        assert(side_render(ts.take(1)) == token_render(ts[0]));
        assert(side_render(ts.take(2)) =~= side_render(ts.take(1)) + " + "@ + token_render(ts[1]));
    } else {
        lemma_side_render_take_succ(ts.drop_first(), j - 1);
        assert(ts.take(j + 1).drop_first() =~= ts.drop_first().take(j));
        assert(ts.take(j).drop_first() =~= ts.drop_first().take(j - 1));
        assert(ts.take(j + 1).len() >= 2);
        assert(ts.take(j).len() >= 2);
        assert(side_render(ts.take(j + 1)) =~= side_render(ts.take(j)) + " + "@ + token_render(
            ts[j],
        ));
    }
}

/// Relies on `String`'s `FromIterator` over `char`: collecting characters
/// yields the string of exactly those characters, in order.
#[verifier::external_body]
fn chars_to_string(v: &Vec<char>) -> (s: String)
    ensures
        s@ == v@,
{
    v.iter().collect()
}

/// The subscript form of a digit character, `None` for any other
/// character.
pub fn subscript(num: char) -> (r: Option<char>)
    ensures
        r == if is_digit_char(num) {
            Some(subscript_char(num))
        } else {
            None::<char>
        },
{
    match num {
        '0' => Some('₀'),
        '1' => Some('₁'),
        '2' => Some('₂'),
        '3' => Some('₃'),
        '4' => Some('₄'),
        '5' => Some('₅'),
        '6' => Some('₆'),
        '7' => Some('₇'),
        '8' => Some('₈'),
        '9' => Some('₉'),
        _ => None,
    }
}

/// Renders a count as subscript digit characters.
fn subscript_of_u32(n: u32) -> (s: String)
    ensures
        s@ == subscript_digits(render_digits(n as nat)),
{
    let ds = u32_to_digits(n);
    proof {
        crate::numerals::lemma_render_shape(n as nat);
    }
    let mut subs: Vec<char> = Vec::new();
    let mut i: usize = 0;
    while i < ds.len()
        invariant
            0 <= i <= ds@.len(),
            ds@ == render_digits(n as nat),
            all_digit_chars(ds@),
            subs@ == subscript_digits(ds@.take(i as int)),
        decreases ds@.len() - i,
    {
        proof {
            assert(is_digit_char(ds@[i as int]));
        }
        let sc = match subscript(ds[i]) {
            Some(x) => x,
            None => ' ',
        };
        subs.push(sc);
        proof {
            assert(subs@ =~= subscript_digits(ds@.take(i + 1)));
        }
        i = i + 1;
    }
    proof {
        assert(ds@.take(ds@.len() as int) =~= ds@);
    }
    chars_to_string(&subs)
}

impl Molecule {
    /// The text of this molecule: its name, followed by its atom count in
    /// subscript digits when the count is not one.
    pub fn to_string(&self) -> (r: String)
        ensures
            r@ == mol_render(self@),
    {
        if self.multiple == 1 {
            self.name.clone()
        } else {
            let subs = subscript_of_u32(self.multiple);
            self.name.clone().concat(subs.as_str())
        }
    }
}

impl Token {
    /// The text of this term: its multiplier in ordinary digits when it
    /// is not one, then its molecules' texts in order.
    pub fn to_string(&self) -> (r: String)
        ensures
            r@ == token_render(self@),
    {
        let ghost mols = mol_views(self.terms@);
        let mut out: String = if self.multiple == 1 {
            String::new()
        } else {
            chars_to_string(&u32_to_digits(self.multiple))
        };
        let ghost prefix = out@;
        proof {
            assert(mols.take(0) =~= Seq::<MoleculeModel>::empty());
            assert(out@ =~= prefix + mols_render(mols.take(0)));
        }
        let mut j: usize = 0;
        while j < self.terms.len()
            invariant
                0 <= j <= self.terms@.len(),
                mols == mol_views(self.terms@),
                prefix == (if self@.multiple == 1 {
                    Seq::<char>::empty()
                } else {
                    render_digits(self@.multiple)
                }),
                out@ == prefix + mols_render(mols.take(j as int)),
            decreases self.terms@.len() - j,
        {
            proof {
                assert(mols[j as int] == self.terms@[j as int]@);
            }
            let piece = self.terms[j].to_string();
            out = out.concat(piece.as_str());
            proof {
                lemma_mols_render_take_succ(mols, j as int);
                assert(out@ =~= prefix + mols_render(mols.take(j + 1)));
            }
            j = j + 1;
        }
        proof {
            assert(mols.take(mols.len() as int) =~= mols);
        }
        out
    }
}

/// Renders one side: its terms' texts joined by ` + `.
fn render_side(v: &Vec<Token>) -> (r: String)
    ensures
        r@ == side_render(token_views(v@)),
{
    let ghost ts = token_views(v@);
    if v.len() == 0 {
        return String::new();
    }
    proof {
        assert(ts[0] == v@[0]@);
        assert(ts.take(1)[0] == ts[0]);
        assert(side_render(ts.take(1)) == token_render(ts[0]));
    }
    let mut out = v[0].to_string();
    let mut j: usize = 1;
    while j < v.len()
        invariant
            1 <= j <= v@.len(),
            ts == token_views(v@),
            out@ == side_render(ts.take(j as int)),
        decreases v@.len() - j,
    {
        proof {
            assert(ts[j as int] == v@[j as int]@);
        }
        let piece = v[j].to_string();
        out = out.concat(" + ").concat(piece.as_str());
        proof {
            lemma_side_render_take_succ(ts, j as int);
            assert(out@ =~= side_render(ts.take(j + 1)));
        }
        j = j + 1;
    }
    proof {
        assert(ts.take(ts.len() as int) =~= ts);
    }
    out
}

impl Equation {
    /// The text of this equation: each side's terms joined by ` + `, the
    /// sides joined by ` -> `.
    pub fn to_string(&self) -> (r: String)
        ensures
            r@ == equation_render(self@),
    {
        let left = render_side(&self.lhs);
        let right = render_side(&self.rhs);
        let r = left.concat(" -> ").concat(right.as_str());
        proof {
            assert(r@ =~= equation_render(self@));
        }
        r
    }
}

// ---------------------------------------------------------------------------
// Laws
// ---------------------------------------------------------------------------

/// Atom totals add over concatenation of sides.
pub proof fn lemma_side_total_concat(a: Seq<TokenModel>, b: Seq<TokenModel>, name: Seq<char>)
    ensures
        side_total(a + b, name) == side_total(a, name) + side_total(b, name),
    decreases a.len(),
{
    if a.len() == 0 {
        assert(a + b =~= b);
    } else {
        lemma_side_total_concat(a.drop_first(), b, name);
        assert((a + b).drop_first() =~= a.drop_first() + b);
        assert((a + b)[0] == a[0]);
    }
}

/// Removing a term takes exactly its contribution away.
pub proof fn lemma_side_total_remove(s: Seq<TokenModel>, k: int, name: Seq<char>)
    requires
        0 <= k < s.len(),
    ensures
        side_total(s, name) == side_total(s.remove(k), name) + token_total(s[k], name),
{
    let single = seq![s[k]];
    assert(single.drop_first() =~= Seq::<TokenModel>::empty());
    assert(single.len() == 1 && single[0] == s[k]);
    assert(side_total(Seq::<TokenModel>::empty(), name) == 0);
    assert(side_total(single, name) == token_total(s[k], name));
    assert(s =~= s.take(k) + (single + s.skip(k + 1)));
    lemma_side_total_concat(s.take(k), single + s.skip(k + 1), name);
    lemma_side_total_concat(single, s.skip(k + 1), name);
    assert(s.remove(k) =~= s.take(k) + s.skip(k + 1));
    lemma_side_total_concat(s.take(k), s.skip(k + 1), name);
}

/// Reordering the terms of a side never changes an atom total: a side's
/// counts depend only on which terms it holds, not on their order.
pub proof fn lemma_side_total_permutation(
    s1: Seq<TokenModel>,
    s2: Seq<TokenModel>,
    name: Seq<char>,
)
    requires
        s1.to_multiset() == s2.to_multiset(),
    ensures
        side_total(s1, name) == side_total(s2, name),
    decreases s1.len(),
{
    s1.to_multiset_ensures();
    s2.to_multiset_ensures();
    if s1.len() == 0 {
        assert(s2.len() == 0);
    } else {
        let t = s1[0];
        assert(s1.contains(t));
        assert(s2.to_multiset().count(t) > 0);
        assert(s2.contains(t));
        let k = choose|k: int| 0 <= k < s2.len() && s2[k] == t;
        assert(s1.remove(0).to_multiset() =~= s1.to_multiset().remove(t));
        assert(s2.remove(k).to_multiset() =~= s2.to_multiset().remove(t));
        lemma_side_total_permutation(s1.remove(0), s2.remove(k), name);
        lemma_side_total_remove(s1, 0, name);
        lemma_side_total_remove(s2, k, name);
    }
}

/// Reordering the terms within either side never changes the verdict of
/// the balance check.
pub proof fn lemma_balanced_permutation(
    l1: Seq<TokenModel>,
    l2: Seq<TokenModel>,
    r1: Seq<TokenModel>,
    r2: Seq<TokenModel>,
)
    requires
        l1.to_multiset() == l2.to_multiset(),
        r1.to_multiset() == r2.to_multiset(),
    ensures
        balanced(l1, r1) == balanced(l2, r2),
{
    assert forall|n: Seq<char>| (#[trigger] side_total(l1, n)) == side_total(l2, n) by {
        lemma_side_total_permutation(l1, l2, n);
    }
    assert forall|n: Seq<char>| (#[trigger] side_total(r1, n)) == side_total(r2, n) by {
        lemma_side_total_permutation(r1, r2, n);
    }
    if balanced(l1, r1) {
        assert forall|n: Seq<char>| (#[trigger] side_total(l2, n)) == side_total(r2, n) by {
            lemma_side_total_permutation(l1, l2, n);
            lemma_side_total_permutation(r1, r2, n);
            assert(side_total(l1, n) == side_total(r1, n));
        }
    }
    if balanced(l2, r2) {
        assert forall|n: Seq<char>| (#[trigger] side_total(l1, n)) == side_total(r1, n) by {
            lemma_side_total_permutation(l1, l2, n);
            lemma_side_total_permutation(r1, r2, n);
            assert(side_total(l2, n) == side_total(r2, n));
        }
    }
}

/// Every parsed term carries a positive multiplier, and each of its
/// molecules a positive atom count, also when the source text wrote no
/// digits at all.
pub proof fn lemma_token_positive(s: Seq<char>)
    requires
        token_ok(s),
    ensures
        token_of(s).multiple >= 1,
        forall|i: int|
            0 <= i < token_of(s).terms.len() ==> (#[trigger] token_of(s).terms[i]).multiple >= 1,
{
    assert forall|i: int| 0 <= i < token_of(s).terms.len() implies (#[trigger] token_of(
        s,
    ).terms[i]).multiple >= 1 by {
        assert(token_of(s).terms[i] == mol_of_fragment(token_fragments(s)[i]));
        lemma_mol_of_fragment_wf(token_fragments(s)[i]);
    }
}

/// Parsing a fragment `name + digits` and rendering the molecule yields
/// `name` again when the digits are absent or denote one, and `name`
/// followed by the subscript form of the digit string otherwise. The
/// digit string must be canonical (no leading zero) and fit in a `u32`.
pub proof fn lemma_molecule_round_trip(name: Seq<char>, digits: Seq<char>)
    requires
        valid_name(name),
        all_digit_chars(digits),
        digits.len() >= 1 ==> digits[0] != '0',
        digits_value(digits) <= u32::MAX,
    ensures
        molecule_fragment_ok(name + digits),
        mol_render(mol_of_fragment(name + digits)) == if digits.len() == 0 || digits == seq!['1'] {
            name
        } else {
            name + subscript_digits(digits)
        },
{
    let f = name + digits;
    lemma_lower_end(f, 1);
    let le = lower_end(f, 1);
    assert forall|j: int| 1 <= j < name.len() implies is_lower_char(#[trigger] f[j]) by {
        assert(f[j] == name[j]);
    }
    if le < name.len() {
        assert(is_lower_char(f[le]));
    }
    if le > name.len() {
        assert(digits.len() > 0);
        assert(f[name.len() as int] == digits[0]);
        assert(is_digit_char(digits[0]));
        assert(is_lower_char(f[name.len() as int]));
    }
    assert(le == name.len());
    assert(fragment_name(f) =~= name);
    assert(fragment_digits(f) =~= digits);
    assert(f[0] == name[0]);
    if digits.len() == 0 {
        assert(digits_value(digits) == 0);
        assert(fragment_multiple(f) == 1);
    } else {
        lemma_digits_value_positive(digits);
        assert(fragment_multiple(f) == digits_value(digits));
        crate::numerals::lemma_render_of_value(digits);
        if digits_value(digits) == 1 {
            assert(render_digits(1) =~= seq!['1']);
            assert(digits == seq!['1']);
        } else {
            assert(digits != seq!['1']) by {
                if digits == seq!['1'] {
                    assert(seq!['1'] =~= Seq::<char>::empty() + seq!['1']);
                    crate::numerals::lemma_digits_value_push(Seq::<char>::empty(), '1');
                }
            }
            assert(mol_render(mol_of_fragment(f)) == name + subscript_digits(
                render_digits(digits_value(digits)),
            ));
        }
    }
}

// ---------------------------------------------------------------------------
// The render / parse round trip
// ---------------------------------------------------------------------------

/// A letter or digit: what molecule names and multipliers are written in.
pub open spec fn plain_char(c: char) -> bool {
    is_upper_char(c) || is_lower_char(c) || is_digit_char(c)
}

pub open spec fn all_plain(s: Seq<char>) -> bool {
    forall|i: int| 0 <= i < s.len() ==> plain_char(#[trigger] s[i])
}

/// What a rendered side may hold: letters, digits, spaces and `+`.
pub open spec fn side_char(c: char) -> bool {
    plain_char(c) || c == ' ' || c == '+'
}

pub open spec fn all_side_chars(s: Seq<char>) -> bool {
    forall|i: int| 0 <= i < s.len() ==> side_char(#[trigger] s[i])
}

pub open spec fn all_space(s: Seq<char>) -> bool {
    forall|i: int| 0 <= i < s.len() ==> is_space_char(#[trigger] s[i])
}

/// A term whose molecules all carry count one, so that its text holds no
/// subscript digits.
pub open spec fn counts_one_token(t: TokenModel) -> bool {
    forall|i: int| 0 <= i < t.terms.len() ==> (#[trigger] t.terms[i]).multiple == 1
}

pub open spec fn counts_one_side(ts: Seq<TokenModel>) -> bool {
    forall|i: int| 0 <= i < ts.len() ==> counts_one_token(#[trigger] ts[i])
}

/// The names of a molecule list, as split fragments.
pub open spec fn name_pieces(mols: Seq<MoleculeModel>) -> Seq<Seq<char>> {
    mols.map_values(|m: MoleculeModel| m.name)
}

/// With all counts one, a molecule list renders as its concatenated names.
proof fn lemma_mols_render_names(mols: Seq<MoleculeModel>)
    requires
        forall|i: int| 0 <= i < mols.len() ==> (#[trigger] mols[i]).wf(),
        forall|i: int| 0 <= i < mols.len() ==> (#[trigger] mols[i]).multiple == 1,
    ensures
        mols_render(mols) == concat_all(name_pieces(mols)),
        all_plain(mols_render(mols)),
    decreases mols.len(),
{
    if mols.len() == 0 {
        assert(name_pieces(mols) =~= Seq::<Seq<char>>::empty());
    } else {
        lemma_mols_render_names(mols.drop_first());
        assert(name_pieces(mols).drop_first() =~= name_pieces(mols.drop_first()));
        assert(name_pieces(mols)[0] == mols[0].name);
        assert(mols[0].wf());
        assert(mol_render(mols[0]) == mols[0].name);
        assert(mols_render(mols) =~= concat_all(name_pieces(mols)));
        let r = mols_render(mols);
        assert forall|i: int| 0 <= i < r.len() implies plain_char(#[trigger] r[i]) by {
            if i < mols[0].name.len() {
                assert(r[i] == mols[0].name[i]);
            } else {
                assert(r[i] == mols_render(mols.drop_first())[i - mols[0].name.len()]);
            }
        }
    }
}

/// A fragment whose only uppercase letter, if any, stands at the front.
pub open spec fn cap_piece(p: Seq<char>) -> bool {
    p.len() >= 1 && forall|j: int| 1 <= j < p.len() ==> !is_upper_char(#[trigger] p[j])
}

/// Splitting at uppercase letters recovers exactly the pieces a string
/// was concatenated from, when every piece after the first starts with
/// its only uppercase letter.
proof fn lemma_split_caps_pieces(pieces: Seq<Seq<char>>)
    requires
        pieces.len() >= 1,
        forall|i: int| 0 <= i < pieces.len() ==> cap_piece(#[trigger] pieces[i]),
        forall|i: int| 1 <= i < pieces.len() ==> is_upper_char((#[trigger] pieces[i])[0]),
    ensures
        split_caps_spec(concat_all(pieces)) == pieces,
    decreases pieces.len(),
{
    let s = concat_all(pieces);
    let p0 = pieces[0];
    assert(cap_piece(p0));
    let up = |c: char| is_upper_char(c);
    if pieces.len() == 1 {
        assert(pieces.drop_first() =~= Seq::<Seq<char>>::empty());
        assert(concat_all(Seq::<Seq<char>>::empty()) =~= Seq::<char>::empty());
        assert(s =~= p0);
        lemma_scan_to(s, 1, up);
        let b = scan_to(s, 1, up);
        if b < s.len() {
            assert(is_upper_char(s[b]));
            assert(!is_upper_char(p0[b]));
        }
        assert(b >= s.len());
        assert(split_caps_spec(s) =~= pieces);
    } else {
        let rest = pieces.drop_first();
        let rest_c = concat_all(rest);
        assert(s =~= p0 + rest_c);
        assert(rest_c =~= rest[0] + concat_all(rest.drop_first()));
        assert(rest[0] == pieces[1]);
        assert(pieces[1].len() >= 1);
        assert(rest_c[0] == pieces[1][0]);
        assert(is_upper_char(rest_c[0]));
        lemma_scan_to(s, 1, up);
        let b = scan_to(s, 1, up);
        assert forall|j: int| 1 <= j < p0.len() implies !is_upper_char(#[trigger] s[j]) by {
            assert(s[j] == p0[j]);
        }
        assert(s[p0.len() as int] == rest_c[0]);
        if b < p0.len() {
            assert(is_upper_char(s[b]));
        }
        if b > p0.len() {
            assert(!is_upper_char(s[p0.len() as int]));
        }
        assert(b == p0.len());
        assert(1 <= b < s.len());
        assert(s.take(b) =~= p0);
        assert(s.skip(b) =~= rest_c);
        assert forall|i: int| 1 <= i < rest.len() implies is_upper_char(
            (#[trigger] rest[i])[0],
        ) by {
            assert(rest[i] == pieces[i + 1]);
        }
        lemma_split_caps_pieces(rest);
        assert(split_caps_spec(s) =~= seq![p0] + rest);
        assert(seq![p0] + rest =~= pieces);
    }
}

/// Trimming takes exactly the surrounding whitespace away.
proof fn lemma_trim_framed(a: Seq<char>, x: Seq<char>, b: Seq<char>)
    requires
        all_space(a),
        all_space(b),
        x.len() >= 1,
        !is_space_char(x[0]),
        !is_space_char(x.last()),
    ensures
        trim_spec(a + x + b) == x,
{
    let s = a + x + b;
    let nonspace = |c: char| !is_space_char(c);
    lemma_scan_to(s, 0, nonspace);
    let bb = scan_to(s, 0, nonspace);
    assert(s[a.len() as int] == x[0]);
    if bb < a.len() {
        assert(!is_space_char(s[bb]));
        assert(s[bb] == a[bb]);
    }
    if bb > a.len() {
        assert(is_space_char(s[a.len() as int]));
    }
    assert(bb == a.len());
    lemma_trim_hi(s, s.len() as int);
    let h = trim_hi(s, s.len() as int);
    let hx = a.len() + x.len();
    assert(s[hx - 1] == x.last());
    if h < hx {
        assert(is_space_char(s[hx - 1]));
    }
    if h > hx {
        assert(!is_space_char(s[h - 1]));
        assert(s[h - 1] == b[h - 1 - hx]);
    }
    assert(h == hx);
    assert(bb < s.len());
    assert(s.subrange(bb, h) =~= x);
}

/// Rendering a well-formed term with all molecule counts one and parsing
/// the text back yields the same term.
pub proof fn lemma_token_round_trip(t: TokenModel)
    requires
        t.wf(),
        counts_one_token(t),
    ensures
        token_ok(token_render(t)),
        token_of(token_render(t)) == t,
        token_render(t).len() >= 1,
        all_plain(token_render(t)),
{
    let tr = token_render(t);
    let names = name_pieces(t.terms);
    lemma_mols_render_names(t.terms);
    let pieces: Seq<Seq<char>> = if t.multiple == 1 {
        names
    } else {
        seq![render_digits(t.multiple)] + names
    };
    crate::numerals::lemma_render_shape(t.multiple);
    crate::numerals::lemma_value_of_render(t.multiple);
    // every piece is a cap piece; names start uppercase
    assert forall|i: int| 0 <= i < names.len() implies cap_piece(#[trigger] names[i])
        && is_upper_char(names[i][0]) by {
        assert(names[i] == t.terms[i].name);
        assert(t.terms[i].wf());
    }
    if t.multiple != 1 {
        assert(cap_piece(pieces[0]));
        assert forall|i: int| 1 <= i < pieces.len() implies cap_piece(#[trigger] pieces[i])
            && is_upper_char(pieces[i][0]) by {
            assert(pieces[i] == names[i - 1]);
        }
        assert(pieces[0] == render_digits(t.multiple));
        assert(pieces.drop_first() =~= names);
        assert(concat_all(pieces) =~= render_digits(t.multiple) + concat_all(names));
        assert(tr =~= concat_all(pieces));
    } else {
        assert(tr =~= concat_all(pieces));
    }
    assert(pieces.len() >= 1);
    lemma_split_caps_pieces(pieces);
    // the rendered term is plain text and trims to itself
    assert forall|i: int| 0 <= i < tr.len() implies plain_char(#[trigger] tr[i]) by {
        if t.multiple != 1 {
            let d = render_digits(t.multiple);
            if i < d.len() {
                assert(tr[i] == d[i]);
                assert(is_digit_char(d[i]));
            } else {
                assert(tr[i] == mols_render(t.terms)[i - d.len()]);
            }
        } else {
            assert(tr[i] == mols_render(t.terms)[i]);
        }
    }
    assert(tr.len() >= 1) by {
        assert(t.terms.len() >= 1);
        assert(names[0] == t.terms[0].name);
        assert(concat_all(pieces).len() >= pieces[0].len()) by {
            assert(concat_all(pieces) =~= pieces[0] + concat_all(pieces.drop_first()));
        }
    }
    assert(Seq::<char>::empty() + tr + Seq::<char>::empty() =~= tr);
    lemma_trim_framed(Seq::<char>::empty(), tr, Seq::<char>::empty());
    assert(token_pieces(tr) == pieces);
    // the multiplier is read back
    if t.multiple != 1 {
        assert(pieces[0] == render_digits(t.multiple));
        assert(token_has_multiplier(tr));
        assert(token_mult_value(tr) == t.multiple);
        assert(token_fragments(tr) =~= names);
        assert(token_multiple(tr) == t.multiple);
    } else {
        assert(pieces[0] == t.terms[0].name);
        assert(is_upper_char(pieces[0][0]));
        assert(!is_digit_char(pieces[0][0]));
        assert(!token_has_multiplier(tr));
        assert(token_fragments(tr) == names);
        assert(token_multiple(tr) == 1);
    }
    // every name fragment reads back as its molecule
    assert forall|i: int| 0 <= i < names.len() implies molecule_fragment_ok(#[trigger] names[i])
        && mol_of_fragment(names[i]) == t.terms[i] by {
        let nm = t.terms[i].name;
        assert(names[i] == nm);
        assert(t.terms[i].wf());
        lemma_lower_end(nm, 1);
        if lower_end(nm, 1) < nm.len() {
            assert(is_lower_char(nm[lower_end(nm, 1)]));
        }
        assert(lower_end(nm, 1) == nm.len());
        assert(fragment_digits(nm) =~= Seq::<char>::empty());
        assert(fragment_name(nm) =~= nm);
        assert(digits_value(fragment_digits(nm)) == 0);
        assert(fragment_multiple(nm) == 1);
        assert(t.terms[i].multiple == 1);
    }
    assert(token_ok(tr));
    assert(mols_of_fragments(names) =~= t.terms);
    assert(token_of(tr) == t);
}

/// Rendering a well-formed side with all molecule counts one, framing it
/// in whitespace, and parsing it back yields the same terms.
pub proof fn lemma_side_round_trip(ts: Seq<TokenModel>, a: Seq<char>, b: Seq<char>)
    requires
        side_wf(ts),
        counts_one_side(ts),
        all_space(a),
        all_space(b),
    ensures
        side_token_ok(a + side_render(ts) + b),
        side_of(a + side_render(ts) + b) == ts,
    decreases ts.len(),
{
    reveal_strlit(" + ");
    reveal_strlit(" ");
    let u = a + side_render(ts) + b;
    let plus = |c: char| c == '+';
    lemma_scan_to(u, 0, plus);
    if ts.len() == 1 {
        lemma_token_round_trip(ts[0]);
        let tr = token_render(ts[0]);
        assert(side_render(ts) == tr);
        let p = scan_to(u, 0, plus);
        if p < u.len() {
            assert(u[p] == '+');
            if p < a.len() {
                assert(is_space_char(a[p]));
                assert(u[p] == a[p]);
            } else if p < a.len() + tr.len() {
                assert(u[p] == tr[p - a.len()]);
                assert(plain_char(tr[p - a.len()]));
            } else {
                assert(u[p] == b[p - a.len() - tr.len()]);
                assert(is_space_char(u[p]));
            }
        }
        assert(p == u.len());
        assert(plus_split(u) =~= seq![u]);
        lemma_trim_framed(a, tr, b);
        assert(trim_spec(u) == tr);
        assert(Seq::<char>::empty() + tr + Seq::<char>::empty() =~= tr);
        lemma_trim_framed(Seq::<char>::empty(), tr, Seq::<char>::empty());
        assert(trim_spec(tr) == tr);
        assert(token_pieces(u) == token_pieces(tr));
        assert(token_ok(u));
        assert(token_of(u) == ts[0]);
        assert(side_of(u) =~= ts);
    } else {
        let t0 = ts[0];
        let rest = ts.drop_first();
        lemma_token_round_trip(t0);
        let tr = token_render(t0);
        assert(side_render(ts) == tr + " + "@ + side_render(rest));
        let q: int = (a.len() + tr.len() + 1) as int;
        assert(u =~= a + tr + " + "@ + side_render(rest) + b);
        assert(u[q] == '+') by {
            assert(" + "@[1] == '+') by {
                reveal_strlit(" + ");
            }
            assert(u[q] == (" + "@)[1]);
        }
        assert((" + "@)[0] == ' ' && (" + "@)[2] == ' ') by {
            reveal_strlit(" + ");
        }
        let p = scan_to(u, 0, plus);
        assert forall|j: int| 0 <= j < q implies u[j] != '+' by {
            if j < a.len() {
                assert(u[j] == a[j]);
                assert(is_space_char(u[j]));
            } else if j < a.len() + tr.len() {
                assert(u[j] == tr[j - a.len()]);
                assert(plain_char(u[j]));
            } else {
                assert(u[j] == (" + "@)[0]);
            }
        }
        if p < q {
            assert(u[p] == '+');
        }
        if p > q {
            assert(u[q] != '+');
        }
        assert(p == q);
        assert(u.take(q) =~= a + tr + " "@) by {
            reveal_strlit(" + ");
            reveal_strlit(" ");
        }
        let u2 = " "@ + side_render(rest) + b;
        assert(u.skip(q + 1) =~= u2) by {
            reveal_strlit(" + ");
            reveal_strlit(" ");
        }
        assert(plus_split(u) =~= seq![a + tr + " "@] + plus_split(u2));
        // the first piece parses back to the first term
        assert(all_space(" "@)) by {
            reveal_strlit(" ");
        }
        assert(a + tr + " "@ =~= a + tr + " "@);
        lemma_trim_framed(a, tr, " "@);
        assert(trim_spec(a + tr + " "@) == tr);
        assert(Seq::<char>::empty() + tr + Seq::<char>::empty() =~= tr);
        lemma_trim_framed(Seq::<char>::empty(), tr, Seq::<char>::empty());
        assert(token_pieces(a + tr + " "@) == token_pieces(tr));
        assert(token_ok(a + tr + " "@));
        assert(token_of(a + tr + " "@) == t0);
        // the remainder parses back to the remaining terms
        assert(side_wf(rest));
        assert forall|i: int| 0 <= i < rest.len() implies counts_one_token(
            #[trigger] rest[i],
        ) by {
            assert(rest[i] == ts[i + 1]);
        }
        lemma_side_round_trip(rest, " "@, b);
        assert forall|k: int| 0 <= k < plus_split(u).len() implies token_ok(
            #[trigger] plus_split(u)[k],
        ) by {
            if k == 0 {
                assert(plus_split(u)[0] == a + tr + " "@);
            } else {
                assert(plus_split(u)[k] == plus_split(u2)[k - 1]);
            }
        }
        assert(side_of(u) =~= ts) by {
            assert(side_of(u).len() == plus_split(u).len());
            assert(side_of(u2) == rest);
            assert forall|k: int| 0 <= k < side_of(u).len() implies side_of(u)[k] == ts[k] by {
                if k == 0 {
                    assert(side_of(u)[0] == token_of(a + tr + " "@));
                } else {
                    assert(side_of(u)[k] == token_of(plus_split(u)[k]));
                    assert(plus_split(u)[k] == plus_split(u2)[k - 1]);
                    assert(side_of(u2)[k - 1] == token_of(plus_split(u2)[k - 1]));
                    assert(side_of(u2)[k - 1] == rest[k - 1]);
                }
            }
        }
    }
}

/// Rendered sides hold only letters, digits, spaces and `+`.
proof fn lemma_side_render_chars(ts: Seq<TokenModel>)
    requires
        side_wf(ts),
        counts_one_side(ts),
    ensures
        all_side_chars(side_render(ts)),
    decreases ts.len(),
{
    reveal_strlit(" + ");
    lemma_token_round_trip(ts[0]);
    let tr = token_render(ts[0]);
    if ts.len() == 1 {
        assert forall|i: int| 0 <= i < side_render(ts).len() implies side_char(
            #[trigger] side_render(ts)[i],
        ) by {
            assert(plain_char(tr[i]));
        }
    } else {
        let rest = ts.drop_first();
        assert(side_wf(rest));
        assert forall|i: int| 0 <= i < rest.len() implies counts_one_token(
            #[trigger] rest[i],
        ) by {
            assert(rest[i] == ts[i + 1]);
        }
        lemma_side_render_chars(rest);
        let s = side_render(ts);
        assert(s == tr + " + "@ + side_render(rest));
        assert((" + "@)[0] == ' ' && (" + "@)[1] == '+' && (" + "@)[2] == ' ') by {
            reveal_strlit(" + ");
        }
        assert forall|i: int| 0 <= i < s.len() implies side_char(#[trigger] s[i]) by {
            if i < tr.len() {
                assert(s[i] == tr[i]);
                assert(plain_char(tr[i]));
            } else if i < tr.len() + 3 {
                assert(s[i] == (" + "@)[i - tr.len()]);
            } else {
                assert(s[i] == side_render(rest)[i - tr.len() - 3]);
                assert(side_char(side_render(rest)[i - tr.len() - 3]));
            }
        }
    }
}

/// Parsing the rendered form of a well-formed equation whose molecule
/// counts are all one — the equations whose text holds only ordinary
/// integer multipliers — yields the very same equation, so both sides
/// keep their aggregated element counts.
pub proof fn lemma_equation_round_trip(e: EquationModel)
    requires
        e.wf(),
        counts_one_side(e.lhs),
        counts_one_side(e.rhs),
    ensures
        equation_ok(equation_render(e)),
        equation_of(equation_render(e)) == e,
{
    reveal_strlit(" -> ");
    reveal_strlit(" ");
    let s = equation_render(e);
    let lr = side_render(e.lhs);
    let rr = side_render(e.rhs);
    lemma_side_render_chars(e.lhs);
    lemma_side_render_chars(e.rhs);
    assert(s == lr + " -> "@ + rr);
    assert((" -> "@)[0] == ' ' && (" -> "@)[1] == '-' && (" -> "@)[2] == '>' && (" -> "@)[3]
        == ' ') by {
        reveal_strlit(" -> ");
    }
    let q: int = (lr.len() + 1) as int;
    assert(s[q] == '-' && s[q + 1] == '>') by {
        assert(s[q] == (" -> "@)[1]);
        assert(s[q + 1] == (" -> "@)[2]);
    }
    assert(sep_len_at(s, q) == 2) by {
        assert(s[q] != '=');
    }
    lemma_sep_pos(s, 0);
    let p = sep_pos(s, 0);
    assert forall|j: int| 0 <= j < q implies sep_len_at(s, j) == 0 by {
        if j < lr.len() {
            assert(s[j] == lr[j]);
            assert(side_char(s[j]));
        } else {
            assert(s[j] == (" -> "@)[0]);
        }
        assert(s[j] != '=' && s[j] != '-');
    }
    if p < q {
        assert(sep_len_at(s, p) >= 1);
    }
    if p > q {
        assert(sep_len_at(s, q) == 0);
    }
    assert(p == q);
    let u2 = " "@ + rr;
    assert(s.take(q) =~= lr + " "@) by {
        reveal_strlit(" -> ");
        reveal_strlit(" ");
    }
    assert(s.skip(q + 2) =~= u2) by {
        reveal_strlit(" -> ");
        reveal_strlit(" ");
    }
    lemma_sep_pos(u2, 0);
    assert(all_space(" "@)) by {
        reveal_strlit(" ");
    }
    let p2 = sep_pos(u2, 0);
    if p2 < u2.len() {
        assert(sep_len_at(u2, p2) >= 1);
        assert(u2[p2] == '=' || u2[p2] == '-');
        if p2 == 0 {
            assert(is_space_char(u2[0]));
        } else {
            assert(u2[p2] == rr[p2 - 1]);
            assert(side_char(u2[p2]));
        }
    }
    assert(p2 == u2.len());
    assert(sep_split(u2) =~= seq![u2]);
    assert(sep_split(s) =~= seq![lr + " "@, u2]);
    assert(Seq::<char>::empty() + lr + " "@ =~= lr + " "@);
    lemma_side_round_trip(e.lhs, Seq::<char>::empty(), " "@);
    assert(" "@ + rr + Seq::<char>::empty() =~= u2);
    lemma_side_round_trip(e.rhs, " "@, Seq::<char>::empty());
    assert(equation_ok(s));
    assert(equation_of(s) == e);
}

/// Whether every character of `s` is a decimal digit; this is the
/// executable side of [`all_digit_chars`].
pub fn str_all_digits(s: &str) -> (r: bool)
    ensures
        r == all_digit_chars(s@),
{
    let n = s.unicode_len();
    let mut i: usize = 0;
    while i < n
        invariant
            0 <= i <= n,
            n == s@.len(),
            forall|j: int| 0 <= j < i ==> is_digit_char(#[trigger] s@[j]),
        decreases n - i,
    {
        let c = s.get_char(i);
        if !('0' <= c && c <= '9') {
            return false;
        }
        i = i + 1;
    }
    true
}

} // verus!
