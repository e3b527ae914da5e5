//! Field names: derivation from the header cells, sanitization, camel case
//! and the numeric suffixes that keep the names of one schema apart.

use crate::text::{chars_of, copy_chars, is_ascii_letter, is_digit, list_contains, lower_of};
use crate::text::{spells, texts, to_lower, to_upper, upper_of};
use vstd::prelude::*;

verus! {

/// The characters that end a word of a description.
pub open spec fn is_separator(c: char) -> bool {
    c == '{' || c == '}' || c == ' ' || c == '-' || c == '.'
}

/// The characters of an identifier.
pub open spec fn is_identifier_char(c: char) -> bool {
    is_ascii_letter(c) || is_digit(c) || c == '_'
}

/// A non-empty run of letters, digits and underscores that does not start
/// with a digit.
pub open spec fn is_identifier(s: Seq<char>) -> bool {
    &&& s.len() > 0
    &&& !is_digit(s[0])
    &&& forall|i: int| 0 <= i < s.len() ==> is_identifier_char(#[trigger] s[i])
}

/// Whether a character ends a word of a description.
pub fn char_is_separator(c: char) -> (r: bool)
    ensures
        r == is_separator(c),
{
    c == '{' || c == '}' || c == ' ' || c == '-' || c == '.'
}

/// Whether a character is one of `a` to `z` and `A` to `Z`.
pub fn char_is_ascii_letter(c: char) -> (r: bool)
    ensures
        r == is_ascii_letter(c),
{
    ('a' <= c && c <= 'z') || ('A' <= c && c <= 'Z')
}

/// What sanitization keeps of a description: letters and underscores;
/// digits and separators once something has been kept; nothing else.
pub open spec fn kept_chars(s: Seq<char>) -> Seq<char>
    decreases s.len(),
{
    if s.len() == 0 {
        Seq::empty()
    } else {
        let before = kept_chars(s.drop_last());
        let c = s.last();
        if is_ascii_letter(c) || c == '_' {
            before.push(c)
        } else if (is_digit(c) || is_separator(c)) && before.len() > 0 {
            before.push(c)
        } else {
            before
        }
    }
}

/// The state of the camel-case pass: what has been written, and whether the
/// next character follows a separator.
pub struct CamelState {
    pub out: Seq<char>,
    pub capitalize: bool,
}

/// The camel-case pass over a prefix of the input.
pub open spec fn camel_state(s: Seq<char>) -> CamelState
    decreases s.len(),
{
    if s.len() == 0 {
        CamelState { out: Seq::empty(), capitalize: false }
    } else {
        let before = camel_state(s.drop_last());
        let c = s.last();
        if is_separator(c) {
            CamelState { out: before.out, capitalize: true }
        } else if before.out.len() == 0 {
            CamelState { out: before.out.push(lower_of(c)), capitalize: false }
        } else if before.capitalize {
            CamelState { out: before.out.push(upper_of(c)), capitalize: false }
        } else {
            CamelState { out: before.out.push(c), capitalize: false }
        }
    }
}

/// Camel case: the separators are dropped, the first character that stays
/// is put in lower case, and each later character that follows a separator
/// is put in upper case.
pub open spec fn camel_case(s: Seq<char>) -> Seq<char> {
    camel_state(s).out
}

/// What is put before the camel-case pass in place of the kept characters:
/// `_` where nothing was kept, and `_` before a leading digit.
pub open spec fn identifier_start(kept: Seq<char>) -> Seq<char> {
    if kept.len() == 0 {
        seq!['_']
    } else if is_digit(kept[0]) {
        seq!['_'] + kept
    } else {
        kept
    }
}

/// The field name made of a description.
pub open spec fn sanitized(s: Seq<char>) -> Seq<char> {
    camel_case(identifier_start(kept_chars(s)))
}

/// What is kept of a description starts with a letter or an underscore and
/// holds identifier characters and separators only.
pub proof fn lemma_kept_chars(s: Seq<char>)
    ensures
        kept_chars(s).len() > 0 ==> is_ascii_letter(kept_chars(s)[0]) || kept_chars(s)[0] == '_',
        forall|i: int|
            0 <= i < kept_chars(s).len() ==> is_identifier_char(#[trigger] kept_chars(s)[i])
                || is_separator(kept_chars(s)[i]),
    decreases s.len(),
{
    if s.len() > 0 {
        lemma_kept_chars(s.drop_last());
    }
}

/// Changing the case of an identifier character gives an identifier
/// character of the same kind.
pub proof fn lemma_case_of_identifier_char(c: char)
    ensures
        is_identifier_char(c) ==> is_identifier_char(upper_of(c)) && is_identifier_char(lower_of(c)),
        is_digit(lower_of(c)) == is_digit(c),
        is_digit(upper_of(c)) == is_digit(c),
{
    if 'a' <= c && c <= 'z' {
        let u = ((c as u8) - 32) as char;
        assert(u as int == c as int - 32);
        assert('A' <= u && u <= 'Z');
    }
    if 'A' <= c && c <= 'Z' {
        let l = ((c as u8) + 32) as char;
        assert(l as int == c as int + 32);
        assert('a' <= l && l <= 'z');
    }
}

/// The camel-case pass turns identifier characters and separators into
/// identifier characters, and keeps the first character but for its case.
pub proof fn lemma_camel_state(s: Seq<char>)
    requires
        forall|i: int| 0 <= i < s.len() ==> is_identifier_char(#[trigger] s[i]) || is_separator(s[i]),
    ensures
        forall|i: int|
            0 <= i < camel_state(s).out.len() ==> is_identifier_char(#[trigger] camel_state(s).out[i]),
        s.len() > 0 && !is_separator(s[0]) ==> camel_state(s).out.len() > 0 && camel_state(s).out[0]
            == lower_of(s[0]),
    decreases s.len(),
{
    if s.len() > 0 {
        let p = s.drop_last();
        assert forall|i: int| 0 <= i < p.len() implies is_identifier_char(#[trigger] p[i])
            || is_separator(p[i]) by {
            assert(p[i] == s[i]);
        }
        lemma_camel_state(p);
        let c = s.last();
        assert(c == s[s.len() - 1]);
        assert(is_identifier_char(c) || is_separator(c));
        lemma_case_of_identifier_char(c);
        if p.len() > 0 {
            assert(p[0] == s[0]);
        }
        let before = camel_state(p);
        let after = camel_state(s);
        assert forall|i: int| 0 <= i < after.out.len() implies is_identifier_char(
            #[trigger] after.out[i],
        ) by {
            if i < before.out.len() {
                assert(after.out[i] == before.out[i]);
            }
        }
    }
}

/// Sanitization always gives an identifier.
pub proof fn lemma_sanitized_is_identifier(s: Seq<char>)
    ensures
        is_identifier(sanitized(s)),
{
    lemma_kept_chars(s);
    let start = identifier_start(kept_chars(s));
    assert(start.len() > 0);
    assert(is_ascii_letter(start[0]) || start[0] == '_');
    assert forall|i: int| 0 <= i < start.len() implies is_identifier_char(#[trigger] start[i])
        || is_separator(start[i]) by {
        if kept_chars(s).len() > 0 && !is_digit(kept_chars(s)[0]) {
            assert(start[i] == kept_chars(s)[i]);
        }
    }
    lemma_camel_state(start);
}

/// The camel-case form of a name.
pub fn camel_case_chars(name: &Vec<char>) -> (r: Vec<char>)
    ensures
        r@ == camel_case(name@),
{
    let mut out: Vec<char> = Vec::new();
    let mut capitalize = false;
    let mut i: usize = 0;
    assert(name@.take(0) =~= Seq::<char>::empty());
    while i < name.len()
        invariant
            i <= name.len(),
            out@ == camel_state(name@.take(i as int)).out,
            capitalize == camel_state(name@.take(i as int)).capitalize,
        decreases name.len() - i,
    {
        let c = name[i];
        proof {
            assert(name@.take(i + 1).drop_last() =~= name@.take(i as int));
            assert(name@.take(i + 1).last() == c);
        }
        if char_is_separator(c) {
            capitalize = true;
        } else if out.len() == 0 {
            out.push(to_lower(c));
            capitalize = false;
        } else if capitalize {
            out.push(to_upper(c));
            capitalize = false;
        } else {
            out.push(c);
            capitalize = false;
        }
        i = i + 1;
    }
    assert(name@.take(i as int) =~= name@);
    out
}

/// What sanitization keeps of a description.
pub fn kept_chars_of(name: &Vec<char>) -> (r: Vec<char>)
    ensures
        r@ == kept_chars(name@),
{
    let mut out: Vec<char> = Vec::new();
    let mut i: usize = 0;
    assert(name@.take(0) =~= Seq::<char>::empty());
    while i < name.len()
        invariant
            i <= name.len(),
            out@ == kept_chars(name@.take(i as int)),
        decreases name.len() - i,
    {
        let c = name[i];
        proof {
            assert(name@.take(i + 1).drop_last() =~= name@.take(i as int));
            assert(name@.take(i + 1).last() == c);
        }
        if char_is_ascii_letter(c) || c == '_' {
            out.push(c);
        } else if (('0' <= c && c <= '9') || char_is_separator(c)) && out.len() > 0 {
            out.push(c);
        }
        i = i + 1;
    }
    assert(name@.take(i as int) =~= name@);
    out
}

/// The field name made of a description.
pub fn sanitized_chars(name: &Vec<char>) -> (r: Vec<char>)
    ensures
        r@ == sanitized(name@),
        is_identifier(r@),
{
    proof {
        lemma_sanitized_is_identifier(name@);
    }
    let kept = kept_chars_of(name);
    let mut start: Vec<char> = Vec::new();
    if kept.len() == 0 {
        start.push('_');
        assert(start@ =~= identifier_start(kept@));
    } else {
        if '0' <= kept[0] && kept[0] <= '9' {
            start.push('_');
        }
        let mut i: usize = 0;
        let ghost head = start@;
        while i < kept.len()
            invariant
                i <= kept.len(),
                start@ =~= head + kept@.take(i as int),
            decreases kept.len() - i,
        {
            start.push(kept[i]);
            i = i + 1;
        }
        assert(kept@.take(i as int) =~= kept@);
        assert(start@ =~= identifier_start(kept@));
    }
    camel_case_chars(&start)
}

/// The decimal digit for a number below ten.
pub open spec fn digit_char(d: nat) -> char {
    (d + 48) as char
}

/// A number written in decimal digits, without leading zeros.
pub open spec fn decimal(n: nat) -> Seq<char>
    decreases n,
{
    if n < 10 {
        seq![digit_char(n)]
    } else {
        decimal(n / 10).push(digit_char(n % 10))
    }
}

/// The number that a sequence of decimal digits writes.
pub open spec fn decimal_value(s: Seq<char>) -> nat
    decreases s.len(),
{
    if s.len() == 0 {
        0
    } else {
        decimal_value(s.drop_last()) * 10 + (s.last() as nat - 48) as nat
    }
}

/// Reading what `decimal` wrote gives the number back, so different numbers
/// are written differently.
pub proof fn lemma_decimal_value(n: nat)
    ensures
        decimal_value(decimal(n)) == n,
        decimal(n).len() > 0,
        forall|i: int| 0 <= i < decimal(n).len() ==> is_digit(#[trigger] decimal(n)[i]),
    decreases n,
{
    if n < 10 {
        let s = decimal(n);
        assert(s.drop_last() =~= Seq::<char>::empty());
        assert(decimal_value(s.drop_last()) == 0);
        assert(s.last() == digit_char(n));
    } else {
        lemma_decimal_value(n / 10);
        let s = decimal(n);
        assert(s.drop_last() =~= decimal(n / 10));
        assert(s.last() == digit_char(n % 10));
    }
}

/// The name tried in round `k`: the base name itself, then the base name
/// with the number of the round after it.
pub open spec fn candidate(base: Seq<char>, k: nat) -> Seq<char> {
    if k == 0 {
        base
    } else {
        base + decimal(k)
    }
}

/// Different rounds try different names.
pub proof fn lemma_candidate_injective(base: Seq<char>, j: nat, k: nat)
    requires
        candidate(base, j) == candidate(base, k),
    ensures
        j == k,
{
    lemma_decimal_value(j);
    lemma_decimal_value(k);
    if j > 0 && k > 0 {
        assert((base + decimal(j)).skip(base.len() as int) =~= decimal(j));
        assert((base + decimal(k)).skip(base.len() as int) =~= decimal(k));
    } else if j > 0 {
        assert((base + decimal(j)).len() == base.len() + decimal(j).len());
    } else if k > 0 {
        assert((base + decimal(k)).len() == base.len() + decimal(k).len());
    }
}

/// Whether round `k` is the first whose name is not in use.
pub open spec fn is_first_free(used: Seq<Seq<char>>, base: Seq<char>, k: nat) -> bool {
    &&& !used.contains(candidate(base, k))
    &&& forall|j: nat| j < k ==> used.contains(#[trigger] candidate(base, j))
}

/// The name given to a field whose derived name is `base`, where the names
/// in `used` are taken: `base` if it is free, else `base` followed by the
/// least of 1, 2, 3, ... that makes a free name.
pub open spec fn unique_name(used: Seq<Seq<char>>, base: Seq<char>) -> Seq<char> {
    candidate(base, choose|k: nat| is_first_free(used, base, k))
}

/// Only one round is the first whose name is free.
pub proof fn lemma_first_free_unique(used: Seq<Seq<char>>, base: Seq<char>, k: nat)
    requires
        is_first_free(used, base, k),
    ensures
        unique_name(used, base) == candidate(base, k),
        !used.contains(unique_name(used, base)),
{
    let c = choose|c: nat| is_first_free(used, base, c);
    assert(is_first_free(used, base, c));
    if c < k {
        assert(used.contains(candidate(base, c)));
    } else if k < c {
        assert(used.contains(candidate(base, k)));
    }
}

/// Whether a used name is the name of round `k` or of a later round.
pub open spec fn is_later_candidate(name: Seq<char>, base: Seq<char>, k: nat) -> bool {
    exists|j: nat| j >= k && name == #[trigger] candidate(base, j)
}

/// How many of the used names are names of round `k` or later.
pub open spec fn later_hits(used: Seq<Seq<char>>, base: Seq<char>, k: nat) -> nat
    decreases used.len(),
{
    if used.len() == 0 {
        0
    } else {
        later_hits(used.drop_last(), base, k) + if is_later_candidate(used.last(), base, k) {
            1nat
        } else {
            0nat
        }
    }
}

/// No more later names are in use than names are in use.
pub proof fn lemma_later_hits_bound(used: Seq<Seq<char>>, base: Seq<char>, k: nat)
    ensures
        later_hits(used, base, k) <= used.len(),
    decreases used.len(),
{
    if used.len() > 0 {
        lemma_later_hits_bound(used.drop_last(), base, k);
    }
}

/// From one round to the next the count of later names in use does not
/// grow, and it falls where the name of the round is in use.
pub proof fn lemma_later_hits_step(used: Seq<Seq<char>>, base: Seq<char>, k: nat)
    ensures
        later_hits(used, base, k + 1) <= later_hits(used, base, k),
        used.contains(candidate(base, k)) ==> later_hits(used, base, k + 1) < later_hits(
            used,
            base,
            k,
        ),
    decreases used.len(),
{
    if used.len() > 0 {
        let rest = used.drop_last();
        let last = used.last();
        lemma_later_hits_step(rest, base, k);
        if is_later_candidate(last, base, k + 1) {
            let j = choose|j: nat| j >= k + 1 && last == #[trigger] candidate(base, j);
            assert(j >= k && last == candidate(base, j));
        }
        if used.contains(candidate(base, k)) {
            let i = choose|i: int| 0 <= i < used.len() && used[i] == candidate(base, k);
            if i == used.len() - 1 {
                assert(is_later_candidate(last, base, k));
                if is_later_candidate(last, base, k + 1) {
                    let j = choose|j: nat| j >= k + 1 && last == #[trigger] candidate(base, j);
                    lemma_candidate_injective(base, j, k);
                }
            } else {
                assert(rest[i] == candidate(base, k));
            }
        }
    }
}

/// From any round on, some round is the first whose name is free, given
/// that the names of all rounds before it are in use.
pub proof fn lemma_first_free_exists(used: Seq<Seq<char>>, base: Seq<char>, k: nat)
    requires
        forall|j: nat| j < k ==> used.contains(#[trigger] candidate(base, j)),
    ensures
        exists|f: nat| is_first_free(used, base, f),
    decreases later_hits(used, base, k),
{
    if used.contains(candidate(base, k)) {
        lemma_later_hits_step(used, base, k);
        assert forall|j: nat| j < k + 1 implies used.contains(#[trigger] candidate(base, j)) by {
            if j == k {
            }
        }
        lemma_first_free_exists(used, base, k + 1);
    } else {
        assert(is_first_free(used, base, k));
    }
}

/// The name given to a field is not in use, and it is the derived name
/// where that is free.
pub proof fn lemma_unique_name(used: Seq<Seq<char>>, base: Seq<char>)
    ensures
        !used.contains(unique_name(used, base)),
        !used.contains(base) ==> unique_name(used, base) == base,
        used.contains(base) && !used.contains(base + decimal(1)) ==> unique_name(used, base) == base
            + decimal(1),
{
    lemma_first_free_exists(used, base, 0);
    let f = choose|f: nat| is_first_free(used, base, f);
    lemma_first_free_unique(used, base, f);
    if !used.contains(base) {
        assert(candidate(base, 0) == base);
        assert(is_first_free(used, base, 0));
        lemma_first_free_unique(used, base, 0);
    } else if !used.contains(base + decimal(1)) {
        assert(candidate(base, 0) == base);
        assert(candidate(base, 1) == base + decimal(1));
        assert(is_first_free(used, base, 1)) by {
            assert forall|j: nat| j < 1 implies used.contains(#[trigger] candidate(base, j)) by {
                assert(j == 0);
            }
        }
        lemma_first_free_unique(used, base, 1);
    }
}

/// Writes `n` in decimal digits after what `out` holds.
pub fn push_decimal(out: &mut Vec<char>, n: u128)
    ensures
        final(out)@ == old(out)@ + decimal(n as nat),
    decreases n,
{
    if n >= 10 {
        push_decimal(out, n / 10);
    }
    let d: u8 = (n % 10) as u8;
    out.push((d + 48) as char);
    proof {
        if n < 10 {
            assert(final(out)@ =~= old(out)@ + decimal(n as nat));
        } else {
            assert(final(out)@ =~= old(out)@ + decimal(n as nat));
        }
    }
}

/// The first of `base`, `base1`, `base2`, ... that is not in `used`.
pub fn unique_name_chars(used: &Vec<Vec<char>>, base: &Vec<char>) -> (r: Vec<char>)
    ensures
        r@ == unique_name(texts(used@), base@),
        !texts(used@).contains(r@),
{
    let mut k: u128 = 0;
    let mut name = copy_chars(base);
    proof {
        lemma_later_hits_bound(texts(used@), base@, 0);
    }
    loop
        invariant
            name@ == candidate(base@, k as nat),
            forall|j: nat| j < k ==> texts(used@).contains(#[trigger] candidate(base@, j)),
            k + later_hits(texts(used@), base@, k as nat) <= used.len(),
        decreases later_hits(texts(used@), base@, k as nat),
    {
        if !list_contains(used, &name) {
            proof {
                lemma_first_free_unique(texts(used@), base@, k as nat);
            }
            return name;
        }
        proof {
            lemma_later_hits_step(texts(used@), base@, k as nat);
        }
        k = k + 1;
        name = copy_chars(base);
        push_decimal(&mut name, k);
    }
}

/// Whether every character is a decimal digit.
pub open spec fn all_digits(s: Seq<char>) -> bool {
    forall|i: int| 0 <= i < s.len() ==> is_digit(#[trigger] s[i])
}

/// Whether every character is a decimal digit.
pub fn all_digits_chars(s: &Vec<char>) -> (r: bool)
    ensures
        r == all_digits(s@),
{
    let mut i: usize = 0;
    while i < s.len()
        invariant
            i <= s.len(),
            forall|k: int| 0 <= k < i ==> is_digit(#[trigger] s@[k]),
        decreases s.len() - i,
    {
        if !('0' <= s[i] && s[i] <= '9') {
            return false;
        }
        i = i + 1;
    }
    true
}

/// The name that the header cells of a column ask for, before the names of
/// one schema are told apart.
pub open spec fn derived_name(identifier: Seq<char>, description: Seq<char>) -> Seq<char> {
    if description.len() > 0 && description[0] == '#' {
        "id"@
    } else if description.len() == 0 {
        if identifier == "key"@ {
            "id"@
        } else if all_digits(identifier) {
            "field"@ + identifier
        } else {
            identifier
        }
    } else if description == "Key"@ {
        "key"@
    } else {
        sanitized(description)
    }
}

/// The name that the header cells of a column ask for.
pub fn derived_name_chars(identifier: &Vec<char>, description: &Vec<char>) -> (r: Vec<char>)
    ensures
        r@ == derived_name(identifier@, description@),
{
    if description.len() > 0 && description[0] == '#' {
        chars_of("id")
    } else if description.len() == 0 {
        if spells(identifier, "key") {
            chars_of("id")
        } else if all_digits_chars(identifier) {
            let mut name = chars_of("field");
            let mut i: usize = 0;
            while i < identifier.len()
                invariant
                    i <= identifier.len(),
                    name@ =~= "field"@ + identifier@.take(i as int),
                decreases identifier.len() - i,
            {
                name.push(identifier[i]);
                i = i + 1;
            }
            assert(identifier@.take(i as int) =~= identifier@);
            name
        } else {
            copy_chars(identifier)
        }
    } else if spells(description, "Key") {
        chars_of("key")
    } else {
        sanitized_chars(description)
    }
}

} // verus!
