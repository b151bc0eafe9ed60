//! File names of table files.
use vstd::prelude::*;
use vstd::string::StringExecFns;
use crate::text::chars_of;

verus! {

pub open spec fn digit_char(d: nat) -> char {
    (('0' as u32) + d) as char
}

/// Decimal digits of `n`, without leading zeros ("0" for zero).
pub open spec fn decimal(n: nat) -> Seq<char>
    decreases n,
{
    if n < 10 {
        seq![digit_char(n)]
    } else {
        decimal(n / 10).push(digit_char(n % 10))
    }
}

/// `s` preceded by zeros up to `width` characters.
pub open spec fn zero_padded(s: Seq<char>, width: nat) -> Seq<char> {
    if s.len() >= width { s } else { Seq::new((width - s.len()) as nat, |i: int| '0') + s }
}

/// The name of table file `n`: its number in at least six digits, then ".sst".
pub open spec fn spec_table_file_name(n: u64) -> Seq<char> {
    zero_padded(decimal(n as nat), 6) + ".sst"@
}

/// `dir` joined with a relative `name`: the name alone when the directory is
/// empty, otherwise separated by one `/` unless the directory already ends with one.
pub open spec fn joined_path(dir: Seq<char>, name: Seq<char>) -> Seq<char> {
    if dir.len() == 0 {
        name
    } else if dir.last() == '/' {
        dir + name
    } else {
        dir + "/"@ + name
    }
}

pub(crate) fn push_decimal(n: u64, s: &mut String) -> (count: usize)
    ensures
        final(s)@ == old(s)@ + decimal(n as nat),
        count == decimal(n as nat).len(),
        count <= 20,
    decreases n,
{
    let mut count: usize = 0;
    if n >= 10 {
        count = push_decimal(n / 10, s);
    }
    let d: u8 = (n % 10) as u8;
    let c = (48u8 + d) as char;
    s.push(c);
    proof {
        lemma_decimal_len(n as nat);
        if n >= 10 {
            assert(decimal(n as nat) == decimal((n / 10) as nat).push(digit_char((n % 10) as nat)));
        }
    }
    count + 1
}

proof fn lemma_decimal_len(n: nat)
    requires
        n <= u64::MAX,
    ensures
        decimal(n).len() <= 20,
{
    reveal_with_fuel(crate::compaction::pow10, 21);
    assert(crate::compaction::pow10(20) == 100000000000000000000int);
    lemma_decimal_pow(n, 20);
}

proof fn lemma_decimal_pow(n: nat, k: nat)
    requires
        n < crate::compaction::pow10(k),
        k >= 1,
    ensures
        decimal(n).len() <= k,
    decreases k,
{
    if n >= 10 {
        assert(n / 10 < crate::compaction::pow10((k - 1) as nat)) by (nonlinear_arith)
            requires n < crate::compaction::pow10(k), k >= 1, crate::compaction::pow10(k) == 10 * crate::compaction::pow10((k - 1) as nat);
        if k == 1 {
            assert(false);
        }
        lemma_decimal_pow(n / 10, (k - 1) as nat);
    }
}

/// The name of table file `file_number`: zero-padded to six digits, then ".sst".
pub fn table_file_name(file_number: u64) -> (r: String)
    ensures
        r@ == spec_table_file_name(file_number),
{
    let mut digits = String::new();
    let count = push_decimal(file_number, &mut digits);
    assert(digits@ =~= decimal(file_number as nat));
    let mut r = String::new();
    let mut i = count;
    while i < 6
        invariant
            count <= i <= 6 || (count > 6 && i == count),
            r@ == Seq::new((i - count) as nat, |j: int| '0'),
        decreases 6 - i,
    {
        r.push('0');
        assert(r@ =~= Seq::new((i + 1 - count) as nat, |j: int| '0'));
        i = i + 1;
    }
    r.append(digits.as_str());
    r.append(".sst");
    proof {
        if count >= 6 {
            assert(r@ =~= decimal(file_number as nat) + ".sst"@);
        } else {
            assert(r@ =~= zero_padded(decimal(file_number as nat), 6) + ".sst"@);
        }
    }
    r
}

/// The path of table file `file_number` inside directory `dir`.
pub fn table_path(dir: &str, file_number: u64) -> (r: String)
    ensures
        r@ == joined_path(dir@, spec_table_file_name(file_number)),
{
    let name = table_file_name(file_number);
    let cs = chars_of(dir);
    if cs.len() == 0 {
        return name;
    }
    let mut r = String::from_str(dir);
    if cs[cs.len() - 1] != '/' {
        r.append("/");
    }
    r.append(name.as_str());
    r
}

} // verus!
