//! The folder namer: the name of destination folder number `index`, in one
//! of three styles.

use vstd::prelude::*;
use crate::error::RefolderError;
use crate::text::{push_char, str_equal};

verus! {

/// How the index of a destination folder shows in its name.
#[derive(Debug, Clone, Copy, PartialEq, Eq)]
pub enum SuffixStyle {
    /// `prefix-1`, `prefix-2`, ..., `prefix-10`, ...
    Numbers,
    /// `prefix-a`, ..., `prefix-z`, `prefix-aa`, `prefix-ab`, ...
    Letters,
    /// `prefix` alone: every bucket shares one folder.
    Unlabeled,
}

/// The style that the word `suffix` stands for, if it is one of the three.
pub open spec fn style_of(suffix: Seq<char>) -> Option<SuffixStyle> {
    if suffix == "numbers"@ {
        Some(SuffixStyle::Numbers)
    } else if suffix == "letters"@ {
        Some(SuffixStyle::Letters)
    } else if suffix == "none"@ {
        Some(SuffixStyle::Unlabeled)
    } else {
        None
    }
}

/// The decimal digit for `d < 10`.
pub open spec fn digit_char(d: nat) -> char {
    ((48 + d) as u8) as char
}

/// The lowercase letter number `d < 26`, counting `a` as 0.
pub open spec fn letter_char(d: nat) -> char {
    ((97 + d) as u8) as char
}

/// `n` in decimal, without leading zeros.
pub open spec fn decimal_of(n: nat) -> Seq<char>
    decreases n,
{
    if n < 10 {
        seq![digit_char(n)]
    } else {
        decimal_of(n / 10).push(digit_char(n % 10))
    }
}

/// `index` in bijective base 26 over `a` to `z`: 1 is `a`, 26 is `z`, 27 is
/// `aa`, as spreadsheet columns are named. There is no letter for zero, so 0
/// has no letters at all.
pub open spec fn letters_of(index: nat) -> Seq<char>
    decreases index,
{
    if index == 0 {
        Seq::empty()
    } else {
        letters_of(((index - 1) / 26) as nat).push(letter_char(((index - 1) % 26) as nat))
    }
}

/// The name of folder number `index` (counted from 1) under `prefix`.
pub open spec fn folder_name_of(prefix: Seq<char>, index: nat, style: SuffixStyle) -> Seq<char> {
    match style {
        SuffixStyle::Numbers => prefix + seq!['-'] + decimal_of(index),
        SuffixStyle::Letters => prefix + seq!['-'] + letters_of(index),
        SuffixStyle::Unlabeled => prefix,
    }
}

/// Letter naming is one-to-one: two indices with the same letters are the
/// same index.
pub proof fn lemma_letters_injective(i: nat, j: nat)
    requires
        letters_of(i) == letters_of(j),
    ensures
        i == j,
    decreases i,
{
    if i == 0 || j == 0 {
        assert(letters_of(i).len() == letters_of(j).len());
        assert(i > 0 ==> letters_of(i).len() >= 1);
        assert(j > 0 ==> letters_of(j).len() >= 1);
    } else {
        let qi = ((i - 1) / 26) as nat;
        let qj = ((j - 1) / 26) as nat;
        let ri = ((i - 1) % 26) as nat;
        let rj = ((j - 1) % 26) as nat;
        assert(letters_of(i).last() == letter_char(ri));
        assert(letters_of(j).last() == letter_char(rj));
        assert(letter_char(ri) as u32 == 97 + ri);
        assert(letter_char(rj) as u32 == 97 + rj);
        assert(letters_of(i).drop_last() =~= letters_of(qi));
        assert(letters_of(j).drop_last() =~= letters_of(qj));
        lemma_letters_injective(qi, qj);
        assert(ri == rj);
        assert(i - 1 == 26 * qi + ri && j - 1 == 26 * qj + rj);
    }
}

/// Decimal naming is one-to-one.
pub proof fn lemma_decimal_injective(i: nat, j: nat)
    requires
        decimal_of(i) == decimal_of(j),
    ensures
        i == j,
    decreases i,
{
    lemma_decimal_length(i);
    lemma_decimal_length(j);
    assert(decimal_of(i).last() == digit_char(i % 10));
    assert(decimal_of(j).last() == digit_char(j % 10));
    assert(digit_char(i % 10) as u32 == 48 + i % 10);
    assert(digit_char(j % 10) as u32 == 48 + j % 10);
    if i < 10 || j < 10 {
        if i >= 10 {
            lemma_decimal_length(i / 10);
        }
        if j >= 10 {
            lemma_decimal_length(j / 10);
        }
        assert(decimal_of(i).len() == decimal_of(j).len());
    } else {
        assert(decimal_of(i).drop_last() =~= decimal_of(i / 10));
        assert(decimal_of(j).drop_last() =~= decimal_of(j / 10));
        lemma_decimal_injective(i / 10, j / 10);
    }
}

/// A decimal numeral has at least one digit, and exactly one below ten.
pub proof fn lemma_decimal_length(n: nat)
    ensures
        decimal_of(n).len() >= 1,
        n < 10 <==> decimal_of(n).len() == 1,
    decreases n,
{
    if n >= 10 {
        lemma_decimal_length(n / 10);
    }
}

/// Under the numbered and the lettered style, folders with different indices
/// have different names.
pub proof fn lemma_folder_names_distinct(prefix: Seq<char>, i: nat, j: nat, style: SuffixStyle)
    requires
        style != SuffixStyle::Unlabeled,
        folder_name_of(prefix, i, style) == folder_name_of(prefix, j, style),
    ensures
        i == j,
{
    let head = prefix + seq!['-'];
    match style {
        SuffixStyle::Numbers => {
            assert((head + decimal_of(i)).skip(head.len() as int) =~= decimal_of(i));
            assert((head + decimal_of(j)).skip(head.len() as int) =~= decimal_of(j));
            lemma_decimal_injective(i, j);
        },
        SuffixStyle::Letters => {
            assert((head + letters_of(i)).skip(head.len() as int) =~= letters_of(i));
            assert((head + letters_of(j)).skip(head.len() as int) =~= letters_of(j));
            lemma_letters_injective(i, j);
        },
        SuffixStyle::Unlabeled => {},
    }
}

/// Reads a suffix style from its word: `numbers`, `letters` or `none`. Any
/// other word is an invalid argument.
pub fn parse_suffix_style(suffix: &str) -> (res: Result<SuffixStyle, RefolderError>)
    ensures
        match style_of(suffix@) {
            Some(style) => res == Ok::<SuffixStyle, RefolderError>(style),
            None => res matches Err(RefolderError::UnknownSuffix { style }) && style@ == suffix@,
        },
{
    if str_equal(suffix, "numbers") {
        Ok(SuffixStyle::Numbers)
    } else if str_equal(suffix, "letters") {
        Ok(SuffixStyle::Letters)
    } else if str_equal(suffix, "none") {
        Ok(SuffixStyle::Unlabeled)
    } else {
        Err(RefolderError::UnknownSuffix { style: String::from_str(suffix) })
    }
}

/// Appends `n` in decimal to `out`.
pub fn push_decimal(out: &mut String, n: u128)
    ensures
        final(out)@ == old(out)@ + decimal_of(n as nat),
{
    let mut digits: Vec<char> = Vec::new();
    let mut rest: u128 = n / 10;
    digits.push(((n % 10) as u8 + 48u8) as char);
    assert(digits@ =~= seq![digit_char((n % 10) as nat)]);
    while rest > 0
        invariant
            digits@.len() >= 1,
            decimal_of(n as nat) == if rest > 0 {
                decimal_of(rest as nat) + digits@
            } else {
                digits@
            },
        decreases rest,
    {
        let d = ((rest % 10) as u8 + 48u8) as char;
        let ghost before = digits@;
        digits.insert(0, d);
        let ghost higher = rest / 10;
        assert(d == digit_char((rest % 10) as nat));
        assert(decimal_of(rest as nat) + before =~= (if higher > 0 {
            decimal_of(higher as nat)
        } else {
            Seq::empty()
        }) + digits@);
        rest = rest / 10;
    }
    push_all(out, &digits);
}

/// Appends `index` in bijective base 26 to `out`.
pub fn push_letters(out: &mut String, index: usize)
    ensures
        final(out)@ == old(out)@ + letters_of(index as nat),
{
    let mut letters: Vec<char> = Vec::new();
    let mut rest: usize = index;
    assert(letters_of(index as nat) + letters@ =~= letters_of(index as nat));
    while rest > 0
        invariant
            letters_of(index as nat) == letters_of(rest as nat) + letters@,
        decreases rest,
    {
        let below: usize = rest - 1;
        let c = ((below % 26) as u8 + 97u8) as char;
        let ghost before = letters@;
        letters.insert(0, c);
        assert(c == letter_char((below % 26) as nat));
        assert(letters_of(rest as nat) + before =~= letters_of((below / 26) as nat) + letters@);
        rest = below / 26;
    }
    assert(letters_of(0) + letters@ =~= letters@);
    push_all(out, &letters);
}

/// Appends the characters of `chars` to `out`, in order.
pub fn push_all(out: &mut String, chars: &Vec<char>)
    ensures
        final(out)@ == old(out)@ + chars@,
{
    let mut i: usize = 0;
    assert(out@ + chars@.take(0) =~= out@);
    while i < chars.len()
        invariant
            i <= chars.len(),
            out@ == old(out)@ + chars@.take(i as int),
        decreases chars.len() - i,
    {
        push_char(out, chars[i]);
        i += 1;
        assert(old(out)@ + chars@.take(i as int) =~= (old(out)@ + chars@.take(i - 1)).push(
            chars@[i - 1],
        ));
    }
    assert(chars@.take(chars.len() as int) =~= chars@);
}

/// The name of destination folder number `index` (counted from 1) under
/// `prefix`, in the given style.
pub fn folder_name(prefix: &str, index: usize, style: SuffixStyle) -> (name: String)
    ensures
        name@ == folder_name_of(prefix@, index as nat, style),
{
    let mut name = String::from_str(prefix);
    match style {
        SuffixStyle::Numbers => {
            push_char(&mut name, '-');
            push_decimal(&mut name, index as u128);
            assert(name@ =~= prefix@ + seq!['-'] + decimal_of(index as nat));
        },
        SuffixStyle::Letters => {
            push_char(&mut name, '-');
            push_letters(&mut name, index);
            assert(name@ =~= prefix@ + seq!['-'] + letters_of(index as nat));
        },
        SuffixStyle::Unlabeled => {},
    }
    name
}

/// The name of destination folder number `index` (counted from 1) under
/// `prefix`, with the style given by its word. An unknown word is refused as
/// an invalid argument, whatever the other arguments are.
pub fn format_folder_name(prefix: &str, index: usize, suffix: &str) -> (res: Result<
    String,
    RefolderError,
>)
    ensures
        match style_of(suffix@) {
            Some(style) => res matches Ok(name) && name@ == folder_name_of(
                prefix@,
                index as nat,
                style,
            ),
            None => res matches Err(RefolderError::UnknownSuffix { style }) && style@ == suffix@,
        },
{
    match parse_suffix_style(suffix) {
        Ok(style) => Ok(folder_name(prefix, index, style)),
        Err(e) => Err(e),
    }
}

} // verus!
