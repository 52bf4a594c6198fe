//! Name resolution for decorated symbol names.
//!
//! A raw symbol name either demangles under a detected source language, or a
//! calling-convention heuristic recovers the literal name and a stack-parameter
//! byte count from its `_`/`@` decorations.

use vstd::prelude::*;
use vstd::string::StrSliceExecFns;
use vstd::string::StringExecFns;
use symbolic::common::{Language, Name, NameMangling};
use symbolic::demangle::{Demangle, DemangleOptions};

verus! {

/// The outcome of resolving one decorated name.
pub enum FuncName {
    /// A best-effort final display name, from demangling or explicit heuristic.
    Undecorated(String),
    /// The language was unknown; the literal name plus a parameter-size hint.
    Unknown((String, u32)),
}

/// A decimal digit character.
pub open spec fn is_digit_char(c: char) -> bool {
    48 <= c as int && c as int <= 57
}

/// The numeric value of a digit character.
pub open spec fn digit_val(c: char) -> int {
    c as int - 48
}

/// Every character of `s` is a decimal digit.
pub open spec fn all_digits(s: Seq<char>) -> bool {
    forall|i: int| 0 <= i < s.len() ==> is_digit_char(s[i])
}

/// The base-10 value denoted by `s`, read left to right.
pub open spec fn digits_val(s: Seq<char>) -> int
    decreases s.len(),
{
    if s.len() == 0 {
        0
    } else {
        digits_val(s.drop_last()) * 10 + digit_val(s.last())
    }
}

/// The value of a run of characters read as an unsigned decimal number: present
/// when they are one or more digits denoting a value that fits in `u32`, absent
/// otherwise (no sign prefix is accepted).
pub open spec fn parse_u32_spec(s: Seq<char>) -> Option<u32> {
    if s.len() > 0 && all_digits(s) && digits_val(s) <= u32::MAX as int {
        Some(digits_val(s) as u32)
    } else {
        None
    }
}

proof fn lemma_digits_val_nonneg(s: Seq<char>)
    requires
        all_digits(s),
    ensures
        digits_val(s) >= 0,
    decreases s.len(),
{
    if s.len() > 0 {
        assert(all_digits(s.drop_last()));
        lemma_digits_val_nonneg(s.drop_last());
    }
}

proof fn lemma_digits_val_monotone(s: Seq<char>, i: int)
    requires
        all_digits(s),
        0 <= i <= s.len(),
    ensures
        digits_val(s.take(i)) <= digits_val(s),
    decreases s.len() - i,
{
    if i < s.len() {
        lemma_digits_val_monotone(s, i + 1);
        let t = s.take(i + 1);
        assert(t.drop_last() =~= s.take(i));
        assert(all_digits(s.take(i)));
        lemma_digits_val_nonneg(s.take(i));
        assert(digits_val(t) == digits_val(s.take(i)) * 10 + digit_val(t.last()));
        assert(digits_val(s.take(i)) <= digits_val(s.take(i)) * 10 + digit_val(t.last()));
    } else {
        assert(s.take(i) =~= s);
    }
}

/// `s` holds a `:` or `(` somewhere.
pub open spec fn contains_colon_or_paren(s: Seq<char>) -> bool {
    exists|i: int| 0 <= i < s.len() && (s[i] == ':' || s[i] == '(')
}

/// The index of the last `@` in `s`, if any.
pub open spec fn last_at_sign(s: Seq<char>) -> Option<int>
    decreases s.len(),
{
    if s.len() == 0 {
        None
    } else if s[s.len() - 1] == '@' {
        Some(s.len() - 1)
    } else {
        last_at_sign(s.drop_last())
    }
}

proof fn lemma_last_at_sign_found(s: Seq<char>, i: int)
    requires
        0 <= i < s.len(),
        s[i] == '@',
        forall|k: int| i < k < s.len() ==> s[k] != '@',
    ensures
        last_at_sign(s) == Some(i),
    decreases s.len(),
{
    if i == s.len() - 1 {
    } else {
        assert(s[s.len() - 1] != '@');
        let t = s.drop_last();
        assert(t[i] == s[i]);
        assert(forall|k: int| i < k < t.len() ==> t[k] != '@');
        lemma_last_at_sign_found(t, i);
    }
}

proof fn lemma_last_at_sign_none(s: Seq<char>)
    requires
        forall|k: int| 0 <= k < s.len() ==> s[k] != '@',
    ensures
        last_at_sign(s) == None::<int>,
    decreases s.len(),
{
    if s.len() > 0 {
        lemma_last_at_sign_none(s.drop_last());
    }
}

/// The heuristic resolver's result on a raw name: the recovered literal name and
/// the stack-parameter byte count drawn from a trailing `@<digits>` suffix.
///
/// A name that starts with `_` reads its suffix digits directly (cdecl/stdcall);
/// one that starts with `@` passes its first two integer-sized arguments in
/// registers, so 8 bytes are subtracted, floored at zero (fastcall). A name with
/// neither lead, or with a `:` or `(` after its first character, is left alone.
pub open spec fn heuristic_result(name: Seq<char>) -> (Seq<char>, u32) {
    if name.len() == 0 {
        (name, 0u32)
    } else if !(name[0] == '_' || name[0] == '@') || contains_colon_or_paren(name.skip(1)) {
        (name, 0u32)
    } else {
        let sub = name.skip(1);
        match last_at_sign(sub) {
            Option::None => (if name[0] == '_' { sub } else { name }, 0u32),
            Option::Some(i) => match parse_u32_spec(sub.skip(i + 1)) {
                Option::Some(v) => (
                    sub.take(i),
                    if name[0] == '@' {
                        if v > 8 { (v - 8) as u32 } else { 0u32 }
                    } else {
                        v
                    },
                ),
                Option::None => (if name[0] == '_' { sub } else { name }, 0u32),
            },
        }
    }
}

/// Parses the characters of `s` at positions `from..to` as a decimal `u32`.
fn parse_digits(s: &str, from: usize, to: usize) -> (r: Option<u32>)
    requires
        from <= to <= s@.len(),
    ensures
        r == parse_u32_spec(s@.subrange(from as int, to as int)),
{
    let ghost digits = s@.subrange(from as int, to as int);
    if from == to {
        return None;
    }
    let mut val: u64 = 0;
    let mut k: usize = from;
    while k < to
        invariant
            from <= k <= to <= s@.len(),
            digits == s@.subrange(from as int, to as int),
            all_digits(digits.take(k - from)),
            val as int == digits_val(digits.take(k - from)),
            val <= u32::MAX,
        decreases to - k,
    {
        let c = s.get_char(k);
        let cu = c as u32;
        proof {
            assert(digits[k - from] == s@[k as int]);
        }
        if cu < 48 || cu > 57 {
            proof {
                assert(!is_digit_char(digits[k - from]));
            }
            return None;
        }
        let d: u64 = (cu - 48) as u64;
        let next: u64 = val * 10 + d;
        proof {
            let t = digits.take(k - from + 1);
            assert(t.drop_last() =~= digits.take(k - from));
            assert(t.last() == digits[k - from]);
        }
        if next > 0xFFFF_FFFF {
            proof {
                if all_digits(digits) {
                    lemma_digits_val_monotone(digits, k - from + 1);
                }
            }
            return None;
        }
        val = next;
        k += 1;
    }
    proof {
        assert(digits.take(to - from) =~= digits);
    }
    Some(val as u32)
}

impl FuncName {
    /// Classifies a raw decorated name by calling-convention heuristics alone,
    /// recovering the literal name and a stack-parameter byte count.
    pub fn get_unknown(name: String) -> (r: FuncName)
        ensures
            r matches FuncName::Unknown(p) && p.0@ == heuristic_result(name@).0 && p.1
                == heuristic_result(name@).1,
    {
        let n = name.as_str().unicode_len();
        if n == 0 {
            return FuncName::Unknown((name, 0u32));
        }
        let first = name.as_str().get_char(0);
        if first != '_' && first != '@' {
            return FuncName::Unknown((name, 0u32));
        }
        let ghost sub = name@.skip(1);
        proof {
            assert(sub =~= name@.subrange(1, n as int));
            assert(sub.len() == n - 1);
            assert(forall|k: int| 0 <= k < sub.len() ==> sub[k] == name@[k + 1]);
        }

        // Reject names holding `:` or `(` past the first character.
        let mut i: usize = 1;
        while i < n
            invariant
                1 <= i <= n,
                n == name@.len(),
                sub == name@.skip(1),
                forall|j: int| 1 <= j < i ==> !(name@[j] == ':' || name@[j] == '('),
            decreases n - i,
        {
            let c = name.as_str().get_char(i);
            if c == ':' || c == '(' {
                proof {
                    assert(name@.skip(1)[i - 1] == name@[i as int]);
                    assert(sub[i - 1] == ':' || sub[i - 1] == '(');
                    assert(contains_colon_or_paren(sub));
                }
                return FuncName::Unknown((name, 0u32));
            }
            i += 1;
        }
        proof {
            assert(!contains_colon_or_paren(sub));
        }

        // Find the last `@` past the first character.
        let mut found = false;
        let mut at_pos: usize = 0;
        let mut j: usize = n - 1;
        while j >= 1
            invariant
                n == name@.len(),
                n >= 1,
                j <= n - 1,
                !found ==> forall|k: int| j < k < n ==> name@[k] != '@',
                found ==> 1 <= at_pos < n && name@[at_pos as int] == '@' && forall|k: int|
                    at_pos < k < n ==> name@[k] != '@',
            decreases j,
        {
            let c = name.as_str().get_char(j);
            if c == '@' && !found {
                found = true;
                at_pos = j;
            }
            j -= 1;
        }

        if !found {
            proof {
                assert(forall|k: int| 0 <= k < sub.len() ==> sub[k] != '@');
                lemma_last_at_sign_none(sub);
            }
            if first == '_' {
                let stripped = name.as_str().substring_char(1, n).to_owned();
                proof {
                    assert(stripped@ =~= sub);
                }
                return FuncName::Unknown((stripped, 0u32));
            } else {
                return FuncName::Unknown((name, 0u32));
            }
        }

        proof {
            assert(sub[at_pos - 1] == name@[at_pos as int]);
            assert(forall|k: int| at_pos - 1 < k < sub.len() ==> sub[k] == name@[k + 1] && sub[k]
                != '@');
            lemma_last_at_sign_found(sub, at_pos - 1);
            assert(sub.skip(at_pos - 1 + 1) =~= name@.subrange(at_pos + 1, n as int));
        }

        let parsed = parse_digits(name.as_str(), at_pos + 1, n);
        match parsed {
            Some(v) => {
                let prefix = name.as_str().substring_char(1, at_pos).to_owned();
                proof {
                    assert(prefix@ =~= sub.take(at_pos - 1));
                }
                let sps: u32 = if first == '@' {
                    if v > 8 {
                        v - 8
                    } else {
                        0
                    }
                } else {
                    v
                };
                FuncName::Unknown((prefix, sps))
            },
            None => {
                if first == '_' {
                    let stripped = name.as_str().substring_char(1, n).to_owned();
                    proof {
                        assert(stripped@ =~= sub);
                    }
                    FuncName::Unknown((stripped, 0u32))
                } else {
                    FuncName::Unknown((name, 0u32))
                }
            },
        }
    }
}

/// Strict lexicographic order on character sequences, by code point; on UTF-8
/// text this agrees with the byte order `String`'s own ordering uses.
pub open spec fn lex_lt(a: Seq<char>, b: Seq<char>) -> bool
    decreases a.len(),
{
    if b.len() == 0 {
        false
    } else if a.len() == 0 {
        true
    } else if (a[0] as int) < (b[0] as int) {
        true
    } else if (a[0] as int) > (b[0] as int) {
        false
    } else {
        lex_lt(a.skip(1), b.skip(1))
    }
}

proof fn lemma_lex_lt_common_prefix(a: Seq<char>, b: Seq<char>, i: int)
    requires
        0 <= i <= a.len(),
        i <= b.len(),
        forall|k: int| 0 <= k < i ==> a[k] == b[k],
    ensures
        lex_lt(a, b) == lex_lt(a.skip(i), b.skip(i)),
    decreases i,
{
    if i > 0 {
        assert(a.len() > 0 && b.len() > 0);
        assert(a[0] == b[0]);
        assert(lex_lt(a, b) == lex_lt(a.skip(1), b.skip(1)));
        let a1 = a.skip(1);
        let b1 = b.skip(1);
        assert(forall|k: int| 0 <= k < i - 1 ==> a1[k] == a[k + 1] && b1[k] == b[k + 1]);
        lemma_lex_lt_common_prefix(a1, b1, i - 1);
        assert(a1.skip(i - 1) =~= a.skip(i));
        assert(b1.skip(i - 1) =~= b.skip(i));
    } else {
        assert(a.skip(0) =~= a);
        assert(b.skip(0) =~= b);
    }
}

/// Whether `a` orders strictly before `b`, code point by code point.
pub fn str_lt(a: &str, b: &str) -> (r: bool)
    ensures
        r == lex_lt(a@, b@),
{
    let an = a.unicode_len();
    let bn = b.unicode_len();
    let mut i: usize = 0;
    while i < an && i < bn
        invariant
            0 <= i <= an,
            i <= bn,
            an == a@.len(),
            bn == b@.len(),
            forall|k: int| 0 <= k < i ==> a@[k] == b@[k],
        decreases an - i,
    {
        let ca = a.get_char(i) as u32;
        let cb = b.get_char(i) as u32;
        if ca < cb {
            proof {
                lemma_lex_lt_common_prefix(a@, b@, i as int);
            }
            return true;
        }
        if ca > cb {
            proof {
                lemma_lex_lt_common_prefix(a@, b@, i as int);
            }
            return false;
        }
        proof {
            assert(a@[i as int] as u32 == b@[i as int] as u32);
            assert(a@[i as int] == b@[i as int]);
        }
        i += 1;
    }
    proof {
        lemma_lex_lt_common_prefix(a@, b@, i as int);
    }
    an < bn
}

/// What `str::replace` yields: each leftmost, non-overlapping occurrence of
/// `pat` replaced by `rep`.
pub open spec fn replace_seq(s: Seq<char>, pat: Seq<char>, rep: Seq<char>) -> Seq<char>
    decreases s.len() when pat.len() > 0
{
    if s.len() < pat.len() {
        s
    } else if s.take(pat.len() as int) == pat {
        rep + replace_seq(s.skip(pat.len() as int), pat, rep)
    } else {
        seq![s[0]] + replace_seq(s.skip(1), pat, rep)
    }
}

/// Relies on String::push: appends exactly the one given character.
#[verifier::external_body]
fn push_char(s: &mut String, c: char)
    ensures
        final(s)@ == old(s)@.push(c),
{
    s.push(c);
}

/// Whether the characters of `s` at `i..i + pat.len()` equal `pat`.
fn match_at(s: &str, i: usize, n: usize, pn: usize, pat: &str) -> (r: bool)
    requires
        n == s@.len(),
        pn == pat@.len(),
        i + pn <= n,
    ensures
        r == (s@.subrange(i as int, i + pn) == pat@),
{
    let mut k: usize = 0;
    while k < pn
        invariant
            0 <= k <= pn,
            n == s@.len(),
            pn == pat@.len(),
            i + pn <= n,
            forall|t: int| 0 <= t < k ==> s@[i + t] == pat@[t],
        decreases pn - k,
    {
        if s.get_char(i + k) != pat.get_char(k) {
            proof {
                assert(s@.subrange(i as int, i + pn)[k as int] == s@[i + k]);
            }
            return false;
        }
        k += 1;
    }
    proof {
        assert(s@.subrange(i as int, i + pn) =~= pat@);
    }
    true
}

/// Replaces each leftmost, non-overlapping occurrence of `pat` in `s` by `rep`.
pub fn replace_all(s: &str, pat: &str, rep: &str) -> (r: String)
    requires
        pat@.len() > 0,
    ensures
        r@ == replace_seq(s@, pat@, rep@),
{
    let n = s.unicode_len();
    let pn = pat.unicode_len();
    let mut out = String::new();
    let mut i: usize = 0;
    proof {
        assert(s@.skip(0) =~= s@);
        assert(out@ + replace_seq(s@, pat@, rep@) =~= replace_seq(s@, pat@, rep@));
    }
    while i < n
        invariant
            i <= n,
            n == s@.len(),
            pn == pat@.len(),
            pn > 0,
            replace_seq(s@, pat@, rep@) == out@ + replace_seq(s@.skip(i as int), pat@, rep@),
        decreases n - i,
    {
        let is_match = if pn <= n - i {
            match_at(s, i, n, pn, pat)
        } else {
            false
        };
        if is_match {
            out.append(rep);
            proof {
                assert(s@.skip(i as int).take(pn as int) =~= s@.subrange(i as int, i + pn));
                assert(s@.skip(i as int).skip(pn as int) =~= s@.skip(i + pn));
            }
            i += pn;
        } else {
            let c = s.get_char(i);
            push_char(&mut out, c);
            proof {
                let rest = s@.skip(i as int);
                assert(rest[0] == s@[i as int]);
                assert(rest.skip(1) =~= s@.skip(i + 1));
                if i + pn <= n {
                    assert(rest.take(pn as int) =~= s@.subrange(i as int, i + pn));
                    assert(replace_seq(rest, pat@, rep@) == seq![rest[0]] + replace_seq(
                        rest.skip(1),
                        pat@,
                        rep@,
                    ));
                } else {
                    assert(rest.len() < pn);
                    assert(s@.skip(i + 1).len() < pn);
                    assert(rest =~= seq![rest[0]] + s@.skip(i + 1));
                }
                assert(out@.push(c) =~= out@ + seq![c]);
            }
            i += 1;
        }
    }
    proof {
        assert(s@.skip(n as int) =~= Seq::<char>::empty());
        assert(out@ + Seq::<char>::empty() =~= out@);
    }
    out
}

/// Whether `s` begins with `p`.
pub open spec fn starts_with(s: Seq<char>, p: Seq<char>) -> bool {
    s.len() >= p.len() && s.take(p.len() as int) == p
}

/// Whether `s` begins with `p`, character by character.
pub fn str_starts_with(s: &str, p: &str) -> (r: bool)
    ensures
        r == starts_with(s@, p@),
{
    let n = s.unicode_len();
    let pn = p.unicode_len();
    if pn > n {
        return false;
    }
    let r = match_at(s, 0, n, pn, p);
    proof {
        assert(s@.subrange(0, pn as int) =~= s@.take(pn as int));
    }
    r
}

/// The normalization applied to a demangled name: calling-convention and
/// access-specifier decorations are dropped and doubled spaces collapse once.
pub open spec fn fix_mangled_spec(s: Seq<char>) -> Seq<char> {
    let a = replace_seq(s, "__cdecl"@, ""@);
    let b = replace_seq(a, "public: "@, ""@);
    let c = replace_seq(b, "protected: "@, ""@);
    let d = replace_seq(c, "private: "@, ""@);
    let e = replace_seq(d, "(void)"@, ""@);
    replace_seq(e, "  "@, " "@)
}

/// Strips calling-convention and access-specifier decorations from a demangled
/// name and collapses doubled spaces.
pub fn fix_mangled_name(name: String) -> (r: String)
    ensures
        r@ == fix_mangled_spec(name@),
{
    proof {
        reveal_strlit("__cdecl");
        reveal_strlit("public: ");
        reveal_strlit("protected: ");
        reveal_strlit("private: ");
        reveal_strlit("(void)");
        reveal_strlit("  ");
    }
    let a = replace_all(name.as_str(), "__cdecl", "");
    let b = replace_all(a.as_str(), "public: ", "");
    let c = replace_all(b.as_str(), "protected: ", "");
    let d = replace_all(c.as_str(), "private: ", "");
    let e = replace_all(d.as_str(), "(void)", "");
    replace_all(e.as_str(), "  ", " ")
}

/// Whether the demangler detects a source language for this name; a pure
/// function of the name's characters.
pub uninterp spec fn symbolic_language_known(s: Seq<char>) -> bool;

/// The text the demangler yields for a name whose language was detected, or
/// nothing on demangler failure; a pure function of the name's characters.
pub uninterp spec fn symbolic_demangled(s: Seq<char>) -> Option<Seq<char>>;

/// What one demangling attempt reported.
pub enum DemangleOutcome {
    /// No source language was detected.
    NoLanguage,
    /// A language was detected but the demangler failed.
    Failed,
    /// The demangler produced this text.
    Demangled(String),
}

/// Relies on symbolic::demangle::Demangle: `detect_language` infers the source
/// language from the mangled name's characters alone, and `demangle` renders the
/// demangled text for a name under that language, also from the characters
/// alone; it returns nothing when it cannot demangle the name.
#[verifier::external_body]
fn demangle_via_symbolic(ident: &str) -> (r: DemangleOutcome)
    ensures
        (r is NoLanguage) == !symbolic_language_known(ident@),
        (r is Demangled) == (symbolic_language_known(ident@) && symbolic_demangled(ident@)
            is Some),
        r matches DemangleOutcome::Demangled(d) ==> symbolic_demangled(ident@) == Some(d@),
        (r is Failed) ==> symbolic_language_known(ident@) && symbolic_demangled(ident@) is None,
{
    let lang = Name::new(ident, NameMangling::Mangled, Language::Unknown).detect_language();
    if lang == Language::Unknown {
        return DemangleOutcome::NoLanguage;
    }
    let name = Name::new(ident, NameMangling::Mangled, lang);
    match name.demangle(DemangleOptions::complete().return_type(false)) {
        Some(demangled) => DemangleOutcome::Demangled(demangled),
        None => DemangleOutcome::Failed,
    }
}

/// Whether resolving `s` ends in a demangled (`Undecorated`) display name.
///
/// A demangler output identical to its input means the language detection was
/// spurious, so the name falls back to the heuristic path; a demangler failure
/// under a detected language surfaces the raw name as a best-effort display name.
pub open spec fn demangle_is_known(s: Seq<char>) -> bool {
    symbolic_language_known(s) && (match symbolic_demangled(s) {
        Option::Some(d) => d != s,
        Option::None => true,
    })
}

/// The display name that resolving `s` produces.
pub open spec fn demangle_name_of(s: Seq<char>) -> Seq<char> {
    if !symbolic_language_known(s) {
        heuristic_result(s).0
    } else {
        match symbolic_demangled(s) {
            Option::Some(d) => if d == s {
                heuristic_result(d).0
            } else {
                fix_mangled_spec(d)
            },
            Option::None => s,
        }
    }
}

/// The parameter-size hint that resolving `s` produces; zero on the demangled path.
pub open spec fn demangle_sps_of(s: Seq<char>) -> u32 {
    if !symbolic_language_known(s) {
        heuristic_result(s).1
    } else {
        match symbolic_demangled(s) {
            Option::Some(d) => if d == s {
                heuristic_result(d).1
            } else {
                0u32
            },
            Option::None => 0u32,
        }
    }
}

/// Resolves a raw decorated name: demangles it when a source language is
/// detected, otherwise applies the calling-convention heuristics.
pub fn demangle(ident: &str) -> (r: FuncName)
    ensures
        (r is Undecorated) == demangle_is_known(ident@),
        r matches FuncName::Undecorated(n) ==> n@ == demangle_name_of(ident@),
        r matches FuncName::Unknown(p) ==> p.0@ == demangle_name_of(ident@) && p.1
            == demangle_sps_of(ident@),
{
    match demangle_via_symbolic(ident) {
        DemangleOutcome::NoLanguage => FuncName::get_unknown(ident.to_owned()),
        DemangleOutcome::Failed => FuncName::Undecorated(ident.to_owned()),
        DemangleOutcome::Demangled(d) => {
            let id_owned = ident.to_owned();
            if d.eq(&id_owned) {
                FuncName::get_unknown(d)
            } else {
                FuncName::Undecorated(fix_mangled_name(d))
            }
        },
    }
}

/// A demangler output equal to its own mangled input is treated as unresolved:
/// the resolution is re-routed through the heuristic path.
pub proof fn lemma_self_demangled_reroutes(s: Seq<char>)
    requires
        symbolic_language_known(s),
        symbolic_demangled(s) == Some(s),
    ensures
        !demangle_is_known(s),
        demangle_name_of(s) == heuristic_result(s).0,
        demangle_sps_of(s) == heuristic_result(s).1,
{
}

} // verus!
