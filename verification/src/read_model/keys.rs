//! The keys and values that runs use.
use vstd::prelude::*;

use super::{DELIMITERS, DIRS, FILES_PER_DIR};
use crate::bytes::push_slice;

verus! {


/// The bytes of a string.
pub open spec fn text(s: &str) -> Seq<u8> {
    vstd::utf8::encode_utf8(s@)
}

/// One digit less to fill.
pub open spec fn narrower(width: nat) -> nat {
    if width == 0 {
        0
    } else {
        (width - 1) as nat
    }
}

/// `n` in decimal, with zeros in front up to `width` digits.
pub open spec fn digits(n: nat, width: nat) -> Seq<u8>
    decreases n, width,
{
    if n < 10 && width <= 1 {
        seq![(48 + n) as u8]
    } else {
        digits(n / 10, narrower(width)).push((48 + n % 10) as u8)
    }
}

/// Append `n` in decimal, with zeros in front up to `width` digits.
fn push_digits(out: &mut Vec<u8>, n: u16, width: u8)
    ensures
        final(out)@ == old(out)@ + digits(n as nat, width as nat),
    decreases n, width,
{
    if n < 10 && width <= 1 {
        out.push(48 + n as u8);
        assert(out@ =~= old(out)@ + digits(n as nat, width as nat));
    } else {
        push_digits(
            out,
            n / 10,
            if width == 0 {
                0
            } else {
                width - 1
            },
        );
        out.push(48 + (n % 10) as u8);
        assert(out@ =~= old(out)@ + digits(n as nat, width as nat));
    }
}

/// The delimiter number `id`, taken round.
pub open spec fn delimiter_byte(id: u8) -> u8 {
    let i = id % 6;
    if i == 0 {
        47
    } else if i == 1 {
        58
    } else if i == 2 {
        124
    } else if i == 3 {
        35
    } else if i == 4 {
        64
    } else {
        92
    }
}

/// The delimiter number `id`, taken round: one of `/ : | # @ \`.
pub fn delimiter(id: u8) -> (byte: u8)
    ensures
        byte == delimiter_byte(id),
{
    let all: [u8; 6] = [47, 58, 124, 35, 64, 92];
    all[(id % DELIMITERS) as usize]
}

/// The key of a file.
pub open spec fn key_of(dir: u8, file: u16) -> Seq<u8> {
    text("meta/") + digits((dir % 8) as nat, 2) + text("/tenant:") + digits((dir % 4) as nat, 2)
        + text("|bucket#") + digits((file % 16) as nat, 2) + text("@shard\\part/") + digits(
        file as nat,
        4,
    )
}

/// The key of a file.
pub fn key(dir: u8, file: u16) -> (out: Vec<u8>)
    ensures
        out@ == key_of(dir, file),
{
    let mut out: Vec<u8> = Vec::new();
    push_slice(&mut out, "meta/".as_bytes());
    push_digits(&mut out, (dir % DIRS) as u16, 2);
    push_slice(&mut out, "/tenant:".as_bytes());
    push_digits(&mut out, (dir % 4) as u16, 2);
    push_slice(&mut out, "|bucket#".as_bytes());
    push_digits(&mut out, file % 16, 2);
    push_slice(&mut out, "@shard\\part/".as_bytes());
    push_digits(&mut out, file, 4);
    assert(out@ =~= key_of(dir, file));
    out
}

/// A key that no file has.
pub open spec fn missing_key_of(dir: u8, file: u16) -> Seq<u8> {
    if dir < DIRS {
        text("meta/") + digits(dir as nat, 2) + text("/missing:") + digits(
            (file + FILES_PER_DIR) as nat,
            4,
        )
    } else {
        text("absent/") + digits((dir - DIRS) as nat, 2) + text("/missing:") + digits(
            file as nat,
            4,
        )
    }
}

/// A key that no file has.
pub fn missing_key(dir: u8, file: u16) -> (out: Vec<u8>)
    requires
        dir < DIRS ==> file + FILES_PER_DIR <= u16::MAX,
    ensures
        out@ == missing_key_of(dir, file),
{
    let mut out: Vec<u8> = Vec::new();
    if dir < DIRS {
        push_slice(&mut out, "meta/".as_bytes());
        push_digits(&mut out, dir as u16, 2);
        push_slice(&mut out, "/missing:".as_bytes());
        push_digits(&mut out, file + FILES_PER_DIR, 4);
    } else {
        push_slice(&mut out, "absent/".as_bytes());
        push_digits(&mut out, (dir - DIRS) as u16, 2);
        push_slice(&mut out, "/missing:".as_bytes());
        push_digits(&mut out, file, 4);
    }
    assert(out@ =~= missing_key_of(dir, file));
    out
}

/// What the keys below a directory start with.
pub open spec fn prefix_of(dir: u8) -> Seq<u8> {
    if dir < DIRS {
        text("meta/") + digits(dir as nat, 2) + text("/")
    } else {
        text("absent/") + digits((dir - DIRS) as nat, 2) + text("/")
    }
}

/// What the keys below a directory start with.
pub fn prefix(dir: u8) -> (out: Vec<u8>)
    ensures
        out@ == prefix_of(dir),
{
    let mut out: Vec<u8> = Vec::new();
    if dir < DIRS {
        push_slice(&mut out, "meta/".as_bytes());
        push_digits(&mut out, dir as u16, 2);
    } else {
        push_slice(&mut out, "absent/".as_bytes());
        push_digits(&mut out, (dir - DIRS) as u16, 2);
    }
    push_slice(&mut out, "/".as_bytes());
    assert(out@ =~= prefix_of(dir));
    out
}

/// The value of a file: 256 bytes that name it and its revision.
pub open spec fn value_of(dir: u8, file: u16, rev: u8) -> Seq<u8> {
    Seq::new(
        256,
        |i: int|
            if i == 0 {
                dir
            } else if i == 1 {
                (file % 256) as u8
            } else if i == 2 {
                (file / 256) as u8
            } else {
                rev
            },
    )
}

/// The value of a file: 256 bytes that name it and its revision.
pub fn value(dir: u8, file: u16, rev: u8) -> (out: Vec<u8>)
    ensures
        out@ == value_of(dir, file, rev),
{
    let mut out: Vec<u8> = vec![rev; 256];
    out.set(0, dir);
    out.set(1, (file % 256) as u8);
    out.set(2, (file / 256) as u8);
    assert(out@ =~= value_of(dir, file, rev));
    out
}

// ---------- laws ----------

/// A number with at most two digits takes two.
proof fn lemma_two_digits(n: nat)
    requires
        n < 100,
    ensures
        digits(n, 2).len() == 2,
{
    assert(digits(n / 10, 1).len() == 1);
}

/// Different numbers have different digits.
pub proof fn digits_are_unambiguous(m: nat, n: nat, width: nat)
    requires
        digits(m, width) == digits(n, width),
    ensures
        m == n,
    decreases m, width,
{
    let less = narrower(width);
    let a = digits(m, width);
    let b = digits(n, width);
    if m < 10 && width <= 1 {
        assert(a == seq![(48 + m) as u8]);
        if n >= 10 {
            lemma_some_digit(n / 10, less);
            assert(b == digits(n / 10, less).push((48 + n % 10) as u8));
            assert(b.len() >= 2 && a.len() == 1);
        } else {
            assert(b == seq![(48 + n) as u8]);
            assert(a[0] == (48 + m) as u8 && b[0] == (48 + n) as u8);
        }
    } else if n < 10 && width <= 1 {
        lemma_some_digit(m / 10, less);
        assert(b == seq![(48 + n) as u8]);
        assert(a == digits(m / 10, less).push((48 + m % 10) as u8));
        assert(a.len() >= 2 && b.len() == 1);
    } else {
        assert(digits(m / 10, less) =~= a.drop_last());
        assert(digits(n / 10, less) =~= b.drop_last());
        digits_are_unambiguous(m / 10, n / 10, less);
        assert(a.last() == (48 + m % 10) as u8);
        assert(b.last() == (48 + n % 10) as u8);
        assert(m % 10 == n % 10);
    }
}

proof fn lemma_some_digit(n: nat, width: nat)
    ensures
        digits(n, width).len() >= 1,
    decreases n, width,
{
    if !(n < 10 && width <= 1) {
        lemma_some_digit(n / 10, narrower(width));
    }
}

/// The parts of a key.
proof fn lemma_key_parts(dir: u8, file: u16)
    ensures
        ({
            let k = key_of(dir, file);
            let a = text("meta/").len() as int;
            let b = a + 2 + text("/tenant:").len();
            let c = b + 2 + text("|bucket#").len();
            let d = c + 2 + text("@shard\\part/").len();
            &&& d <= k.len()
            &&& k.subrange(0, a) == text("meta/")
            &&& k.subrange(a, a + 2) == digits((dir % 8) as nat, 2)
            &&& k.subrange(a + 2, b) == text("/tenant:")
            &&& k.skip(d) == digits(file as nat, 4)
        }),
{
    lemma_two_digits((dir % 8) as nat);
    lemma_two_digits((dir % 4) as nat);
    lemma_two_digits((file % 16) as nat);
    let k = key_of(dir, file);
    let a = text("meta/").len() as int;
    let b = a + 2 + text("/tenant:").len();
    let c = b + 2 + text("|bucket#").len();
    let d = c + 2 + text("@shard\\part/").len();
    assert(k.subrange(0, a) =~= text("meta/"));
    assert(k.subrange(a, a + 2) =~= digits((dir % 8) as nat, 2));
    assert(k.subrange(a + 2, b) =~= text("/tenant:"));
    assert(k.skip(d) =~= digits(file as nat, 4));
}

/// Different files have different keys.
pub proof fn files_have_different_keys(dir1: u8, file1: u16, dir2: u8, file2: u16)
    requires
        dir1 < DIRS,
        dir2 < DIRS,
        key_of(dir1, file1) == key_of(dir2, file2),
    ensures
        dir1 == dir2,
        file1 == file2,
{
    lemma_key_parts(dir1, file1);
    lemma_key_parts(dir2, file2);
    digits_are_unambiguous((dir1 % 8) as nat, (dir2 % 8) as nat, 2);
    digits_are_unambiguous(file1 as nat, file2 as nat, 4);
}

/// A file's key stands below its directory.
pub proof fn a_key_stands_below_its_directory(dir: u8, file: u16)
    requires
        dir < DIRS,
    ensures
        prefix_of(dir).is_prefix_of(key_of(dir, file)),
{
    lemma_key_parts(dir, file);
    lemma_two_digits(dir as nat);
    reveal_strlit("/");
    reveal_strlit("/tenant:");
    vstd::utf8::is_ascii_chars_encode_utf8("/"@);
    vstd::utf8::is_ascii_chars_encode_utf8("/tenant:"@);
    let k = key_of(dir, file);
    let p = prefix_of(dir);
    let a = text("meta/").len() as int;
    assert(text("/").len() == 1);
    assert(k[a + 2] == k.subrange(a + 2, a + 2 + text("/tenant:").len())[0]);
    assert forall|i: int| 0 <= i < p.len() implies p[i] == k[i] by {
        if i < a {
            assert(k.subrange(0, a)[i] == k[i]);
        } else if i < a + 2 {
            assert(k.subrange(a, a + 2)[i - a] == k[i]);
        }
    }
    assert(p =~= k.subrange(0, p.len() as int));
}

/// A missing key is no file's key.
pub proof fn a_missing_key_is_no_files_key(dir: u8, file: u16, other_dir: u8, other_file: u16)
    ensures
        missing_key_of(dir, file) != key_of(other_dir, other_file),
{
    let m = missing_key_of(dir, file);
    let k = key_of(other_dir, other_file);
    lemma_key_parts(other_dir, other_file);
    reveal_strlit("meta/");
    reveal_strlit("absent/");
    reveal_strlit("/missing:");
    reveal_strlit("/tenant:");
    vstd::utf8::is_ascii_chars_encode_utf8("meta/"@);
    vstd::utf8::is_ascii_chars_encode_utf8("absent/"@);
    vstd::utf8::is_ascii_chars_encode_utf8("/missing:"@);
    vstd::utf8::is_ascii_chars_encode_utf8("/tenant:"@);
    if dir < DIRS {
        lemma_two_digits(dir as nat);
        assert(m[8] == text("/missing:")[1]);
        assert(k.subrange(7, 15)[1] == k[8]);
        assert(k[8] == text("/tenant:")[1]);
    } else {
        assert(m[0] == text("absent/")[0]);
        assert(k.subrange(0, 5)[0] == k[0]);
    }
}

/// The number that decimal digits spell.
pub open spec fn spelled(s: Seq<u8>) -> int
    decreases s.len(),
{
    if s.len() == 0 {
        0
    } else {
        10 * spelled(s.drop_last()) + (s.last() - 48)
    }
}

/// The digits of a number spell it in decimal. There are as many as asked for, or
/// as many as it takes: where there are more than asked for, and more than one,
/// the first is no zero.
pub proof fn digits_spell_the_number(n: nat, width: nat)
    ensures
        spelled(digits(n, width)) == n,
        digits(n, width).len() >= width,
        digits(n, width).len() >= 1,
        forall|i: int|
            0 <= i < digits(n, width).len() ==> 48 <= #[trigger] digits(n, width)[i] <= 57,
        digits(n, width).len() > width && digits(n, width).len() > 1 ==> digits(n, width)[0] != 48,
    decreases n, width,
{
    reveal_with_fuel(spelled, 2);
    let s = digits(n, width);
    if n < 10 && width <= 1 {
        assert(s.drop_last() =~= Seq::empty());
        assert(s.last() == 48 + n);
    } else {
        let less = narrower(width);
        digits_spell_the_number(n / 10, less);
        let t = digits(n / 10, less);
        assert(s.drop_last() =~= t);
        assert(s.last() == 48 + n % 10);
        assert forall|i: int| 0 <= i < s.len() implies 48 <= #[trigger] s[i] <= 57 by {
            if i < t.len() {
                assert(s[i] == t[i]);
            }
        }
        assert(s[0] == t[0]);
        if s.len() > width && t.len() == 1 {
            assert(t.drop_last() =~= Seq::empty());
            assert(spelled(t) == t[0] - 48);
        }
    }
}

/// Six different delimiters are taken in turn.
pub proof fn delimiters_are_taken_in_turn(a: u8, b: u8)
    ensures
        a % 6 == b % 6 <==> delimiter_byte(a) == delimiter_byte(b),
        a % 6 == 0 ==> delimiter_byte(a) as char == '/',
        a % 6 == 1 ==> delimiter_byte(a) as char == ':',
        a % 6 == 2 ==> delimiter_byte(a) as char == '|',
        a % 6 == 3 ==> delimiter_byte(a) as char == '#',
        a % 6 == 4 ==> delimiter_byte(a) as char == '@',
        a % 6 == 5 ==> delimiter_byte(a) as char == '\\',
{
}

/// A value is 256 bytes long and tells the file and the revision it was made for.
pub proof fn values_tell_their_file(
    dir1: u8,
    file1: u16,
    rev1: u8,
    dir2: u8,
    file2: u16,
    rev2: u8,
)
    ensures
        value_of(dir1, file1, rev1).len() == 256,
        value_of(dir1, file1, rev1)[0] == dir1,
        value_of(dir1, file1, rev1)[1] + 256 * value_of(dir1, file1, rev1)[2] == file1,
        forall|i: int| 3 <= i < 256 ==> #[trigger] value_of(dir1, file1, rev1)[i] == rev1,
        value_of(dir1, file1, rev1) == value_of(dir2, file2, rev2) ==> dir1 == dir2 && file1
            == file2 && rev1 == rev2,
{
    let (a, b) = (value_of(dir1, file1, rev1), value_of(dir2, file2, rev2));
    if a == b {
        assert(a[0] == b[0] && a[1] == b[1] && a[2] == b[2] && a[3] == b[3]);
    }
}

/// A file's key stands below no other directory, and below none that is never
/// there.
pub proof fn a_key_stands_below_no_other_directory(dir: u8, file: u16, other: u8)
    requires
        dir < DIRS,
        other < 108,
        prefix_of(other).is_prefix_of(key_of(dir, file)),
    ensures
        other == dir,
{
    let k = key_of(dir, file);
    let p = prefix_of(other);
    lemma_key_parts(dir, file);
    reveal_strlit("meta/");
    reveal_strlit("absent/");
    vstd::utf8::is_ascii_chars_encode_utf8("meta/"@);
    vstd::utf8::is_ascii_chars_encode_utf8("absent/"@);
    assert(p =~= k.subrange(0, p.len() as int));
    if other < DIRS {
        lemma_two_digits(other as nat);
        assert(p.subrange(5, 7) =~= digits(other as nat, 2));
        assert(p.subrange(5, 7) =~= k.subrange(5, 7));
        digits_are_unambiguous(other as nat, dir as nat, 2);
    } else {
        assert(p[0] == text("absent/")[0]);
        assert(k.subrange(0, 5)[0] == k[0]);
        assert(k[0] == text("meta/")[0]);
    }
}

} // verus!
