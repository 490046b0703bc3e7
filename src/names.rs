use vstd::prelude::*;
use vstd::string::StringExecFns;

verus! {

pub open spec fn digit_char(d: nat) -> char {
    if d == 0 {
        '0'
    } else if d == 1 {
        '1'
    } else if d == 2 {
        '2'
    } else if d == 3 {
        '3'
    } else if d == 4 {
        '4'
    } else if d == 5 {
        '5'
    } else if d == 6 {
        '6'
    } else if d == 7 {
        '7'
    } else if d == 8 {
        '8'
    } else {
        '9'
    }
}

/// The decimal digits of `n`, without leading zeros.
pub open spec fn decimal(n: nat) -> Seq<char>
    decreases n,
{
    if n < 10 {
        seq![digit_char(n)]
    } else {
        decimal(n / 10) + seq![digit_char(n % 10)]
    }
}

fn digit_str(d: u32) -> (r: &'static str)
    requires
        d < 10,
    ensures
        r@ == seq![digit_char(d as nat)],
{
    if d == 0 {
        proof { reveal_strlit("0"); }
        "0"
    } else if d == 1 {
        proof { reveal_strlit("1"); }
        "1"
    } else if d == 2 {
        proof { reveal_strlit("2"); }
        "2"
    } else if d == 3 {
        proof { reveal_strlit("3"); }
        "3"
    } else if d == 4 {
        proof { reveal_strlit("4"); }
        "4"
    } else if d == 5 {
        proof { reveal_strlit("5"); }
        "5"
    } else if d == 6 {
        proof { reveal_strlit("6"); }
        "6"
    } else if d == 7 {
        proof { reveal_strlit("7"); }
        "7"
    } else if d == 8 {
        proof { reveal_strlit("8"); }
        "8"
    } else {
        proof { reveal_strlit("9"); }
        "9"
    }
}

/// `n` written in decimal.
pub fn decimal_string(n: u32) -> (r: String)
    ensures
        r@ == decimal(n as nat),
    decreases n,
{
    if n < 10 {
        String::from_str(digit_str(n))
    } else {
        let mut s = decimal_string(n / 10);
        s.append(digit_str(n % 10));
        s
    }
}

pub open spec fn data_extension() -> Seq<char> {
    seq!['.', 'c', 'a', 's', 'k', '.', 'd', 'a', 't', 'a']
}

pub open spec fn hint_extension() -> Seq<char> {
    seq!['.', 'c', 'a', 's', 'k', '.', 'h', 'i', 'n', 't']
}

/// The path of the data file of segment `file_id` in directory `dir`.
pub fn get_data_file_path(dir: &str, file_id: u32) -> (r: String)
    ensures
        r@ == dir@ + seq!['/'] + decimal(file_id as nat) + data_extension(),
{
    let mut s = String::from_str(dir);
    proof { reveal_strlit("/"); reveal_strlit(".cask.data"); }
    s.append("/");
    let id = decimal_string(file_id);
    s.append(id.as_str());
    s.append(".cask.data");
    s
}

/// The path of the hint file of segment `file_id` in directory `dir`.
pub fn get_hint_file_path(dir: &str, file_id: u32) -> (r: String)
    ensures
        r@ == dir@ + seq!['/'] + decimal(file_id as nat) + hint_extension(),
{
    let mut s = String::from_str(dir);
    proof { reveal_strlit("/"); reveal_strlit(".cask.hint"); }
    s.append("/");
    let id = decimal_string(file_id);
    s.append(id.as_str());
    s.append(".cask.hint");
    s
}

/// The bytes of a data file name after its segment id.
pub open spec fn data_suffix() -> Seq<u8> {
    seq![46u8, 99u8, 97u8, 115u8, 107u8, 46u8, 100u8, 97u8, 116u8, 97u8]
}

pub open spec fn is_digit(b: u8) -> bool {
    48 <= b <= 57
}

/// The number that the ASCII decimal digits `b` spell.
pub open spec fn digits_value(b: Seq<u8>) -> nat
    decreases b.len(),
{
    if b.len() == 0 {
        0
    } else {
        digits_value(b.drop_last()) * 10 + (b.last() - 48) as nat
    }
}

/// The segment id that a data file name gives: one or more decimal digits
/// followed by `.cask.data`, spelling a number that fits 32 bits.
pub open spec fn data_file_id(name: Seq<u8>) -> Option<u32> {
    let n = name.len() - 10;
    if name.len() > 10 && name.subrange(n, name.len() as int) == data_suffix() && (forall|i: int|
        0 <= i < n ==> is_digit(#[trigger] name[i])) && digits_value(name.subrange(0, n))
        <= u32::MAX {
        Some(digits_value(name.subrange(0, n)) as u32)
    } else {
        None
    }
}

/// The segment id of a file named `name`, where it is a data file.
pub fn parse_data_file_name(name: &[u8]) -> (r: Option<u32>)
    ensures
        r == data_file_id(name@),
{
    let len = name.len();
    if len <= 10 {
        return None;
    }
    let n: usize = len - 10;
    let suffix: Vec<u8> = vec![46u8, 99u8, 97u8, 115u8, 107u8, 46u8, 100u8, 97u8, 116u8, 97u8];
    let mut j: usize = 0;
    while j < 10
        invariant
            j <= 10,
            n + 10 == len,
            len == name@.len(),
            suffix@ == data_suffix(),
            forall|t: int| 0 <= t < j ==> name@[n + t] == suffix@[t],
        decreases 10 - j,
    {
        if name[n + j] != suffix[j] {
            assert(name@.subrange(n as int, len as int)[j as int] != data_suffix()[j as int]);
            return None;
        }
        j = j + 1;
    }
    assert(name@.subrange(n as int, len as int) =~= data_suffix());
    let mut d: usize = 0;
    while d < n
        invariant
            d <= n,
            n + 10 == len,
            len == name@.len(),
            forall|t: int| 0 <= t < d ==> is_digit(#[trigger] name@[t]),
        decreases n - d,
    {
        let c = name[d];
        if c < 48 || c > 57 {
            return None;
        }
        d = d + 1;
    }
    let mut v: u64 = 0;
    let mut i: usize = 0;
    while i < n
        invariant
            i <= n,
            n + 10 == len,
            len == name@.len(),
            name@.subrange(n as int, len as int) == data_suffix(),
            forall|t: int| 0 <= t < n ==> is_digit(#[trigger] name@[t]),
            v as nat == digits_value(name@.subrange(0, i as int)),
            v <= u32::MAX,
        decreases n - i,
    {
        let c = name[i];
        assert(name@.subrange(0, i + 1).drop_last() =~= name@.subrange(0, i as int));
        v = v * 10 + (c - 48) as u64;
        if v > 0xffff_ffff {
            proof {
                let p = name@.subrange(0, n as int);
                assert forall|t: int| 0 <= t < p.len() implies is_digit(#[trigger] p[t]) by {
                    assert(p[t] == name@[t]);
                }
                lemma_digits_grow(p, i + 1);
                assert(p.subrange(0, i + 1) =~= name@.subrange(0, i + 1));
            }
            return None;
        }
        i = i + 1;
    }
    assert(name@.subrange(0, n as int) =~= name@.subrange(0, i as int));
    Some(v as u32)
}

/// A longer run of digits never spells less than its start.
proof fn lemma_digits_grow(b: Seq<u8>, k: int)
    requires
        0 <= k <= b.len(),
        forall|t: int| 0 <= t < b.len() ==> is_digit(#[trigger] b[t]),
    ensures
        digits_value(b) >= digits_value(b.subrange(0, k)),
    decreases b.len() - k,
{
    if k < b.len() {
        lemma_digits_grow(b, k + 1);
        assert(b.subrange(0, k + 1).drop_last() =~= b.subrange(0, k));
    } else {
        assert(b.subrange(0, k) =~= b);
    }
}

} // verus!
