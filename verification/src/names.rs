//! The names of the files in a data folder.
//!
//! A write-ahead log is named `memtable_<n>.log` and a sorted run
//! `gen_<i>_<n>.sst`, where `i` is the generation of the run and `n` a
//! number drawn at random, so that a new file does not collide with one
//! that is to be removed but still open.

use vstd::prelude::*;
use vstd::string::*;
use rand::Rng;

verus! {

/// `text` ends with `suffix`.
pub open spec fn ends_with(text: Seq<char>, suffix: Seq<char>) -> bool {
    text.len() >= suffix.len() && text.skip(text.len() - suffix.len()) == suffix
}

/// `text` begins with `prefix`.
pub open spec fn starts_with(text: Seq<char>, prefix: Seq<char>) -> bool {
    text.len() >= prefix.len() && text.take(prefix.len() as int) == prefix
}

/// The name is that of a sorted run.
pub open spec fn is_sstable_name(name: Seq<char>) -> bool {
    ends_with(name, ".sst"@)
}

/// The name is that of a write-ahead log.
pub open spec fn is_memtable_name(name: Seq<char>) -> bool {
    !is_sstable_name(name) && starts_with(name, "memtable_"@) && ends_with(name, ".log"@)
}

/// The character of a decimal digit.
pub open spec fn digit_char(d: int) -> char {
    if d == 0 {
        '0'
    } else if d == 1 {
        '1'
    } else if d == 2 {
        '2'
    } else if d == 3 {
        '3'
    } else if d == 4 {
        '4'
    } else if d == 5 {
        '5'
    } else if d == 6 {
        '6'
    } else if d == 7 {
        '7'
    } else if d == 8 {
        '8'
    } else {
        '9'
    }
}

/// A number in decimal digits, without leading zeros.
pub open spec fn decimal(n: nat) -> Seq<char>
    decreases n,
{
    if n < 10 {
        seq![digit_char(n as int)]
    } else {
        decimal(n / 10).push(digit_char((n % 10) as int))
    }
}

/// The name of the write-ahead log with the number `suffix`.
pub open spec fn memtable_name(suffix: u64) -> Seq<char> {
    "memtable_"@ + decimal(suffix as nat) + ".log"@
}

/// The name of the run of generation `gen_no` with the number `suffix`.
pub open spec fn sstable_name(gen_no: usize, suffix: u64) -> Seq<char> {
    "gen_"@ + decimal(gen_no as nat) + "_"@ + decimal(suffix as nat) + ".sst"@
}

/// The path of the file `name` in `folder`: the two are joined by a
/// slash, unless the folder is empty or ends with one.
pub open spec fn path_join(folder: Seq<char>, name: Seq<char>) -> Seq<char> {
    if folder.len() == 0 {
        name
    } else if folder.last() == '/' {
        folder + name
    } else {
        folder + seq!['/'] + name
    }
}

/// A name that was made for a write-ahead log is recognised as one, and
/// not as that of a sorted run.
pub proof fn lemma_memtable_name_recognised(suffix: u64)
    ensures
        is_memtable_name(memtable_name(suffix)),
        !is_sstable_name(memtable_name(suffix)),
{
    reveal_strlit("memtable_");
    reveal_strlit(".log");
    reveal_strlit(".sst");
    let name = memtable_name(suffix);
    let digits = decimal(suffix as nat);
    assert(name.take(9) =~= "memtable_"@);
    assert(name.skip(name.len() - 4) =~= ".log"@);
    assert(name.skip(name.len() - 4)[1] == 'l');
}

/// A name that was made for a sorted run is recognised as one, and not as
/// that of a write-ahead log.
pub proof fn lemma_sstable_name_recognised(gen_no: usize, suffix: u64)
    ensures
        is_sstable_name(sstable_name(gen_no, suffix)),
        !is_memtable_name(sstable_name(gen_no, suffix)),
{
    reveal_strlit("gen_");
    reveal_strlit("_");
    reveal_strlit(".sst");
    let name = sstable_name(gen_no, suffix);
    assert(name.skip(name.len() - 4) =~= ".sst"@);
}

/// Whether `text` ends with `suffix`.
pub fn str_ends_with(text: &str, suffix: &str) -> (r: bool)
    ensures
        r == ends_with(text@, suffix@),
{
    let n = text.unicode_len();
    let m = suffix.unicode_len();
    if n < m {
        return false;
    }
    let start = n - m;
    let mut i: usize = 0;
    while i < m
        invariant
            n == text@.len(),
            m == suffix@.len(),
            start == n - m,
            i <= m,
            forall|j: int| 0 <= j < i ==> text@[start + j] == suffix@[j],
        decreases m - i,
    {
        if text.get_char(start + i) != suffix.get_char(i) {
            assert(text@.skip(start as int)[i as int] != suffix@[i as int]);
            return false;
        }
        i += 1;
    }
    assert(text@.skip(start as int) =~= suffix@);
    true
}

/// Whether `text` begins with `prefix`.
pub fn str_starts_with(text: &str, prefix: &str) -> (r: bool)
    ensures
        r == starts_with(text@, prefix@),
{
    let n = text.unicode_len();
    let m = prefix.unicode_len();
    if n < m {
        return false;
    }
    let mut i: usize = 0;
    while i < m
        invariant
            n == text@.len(),
            m == prefix@.len(),
            m <= n,
            i <= m,
            forall|j: int| 0 <= j < i ==> text@[j] == prefix@[j],
        decreases m - i,
    {
        if text.get_char(i) != prefix.get_char(i) {
            assert(text@.take(m as int)[i as int] != prefix@[i as int]);
            return false;
        }
        i += 1;
    }
    assert(text@.take(m as int) =~= prefix@);
    true
}

/// What a file of the data folder is, by its name.
#[derive(Clone, Copy, Debug, PartialEq, Eq, Structural)]
pub enum FileKind {
    SSTable,
    MemtableLog,
    Other,
}

/// What a name says of its file.
pub open spec fn file_kind(name: Seq<char>) -> FileKind {
    if is_sstable_name(name) {
        FileKind::SSTable
    } else if is_memtable_name(name) {
        FileKind::MemtableLog
    } else {
        FileKind::Other
    }
}

/// Tells by its name what a file of the data folder is.
pub fn classify(name: &str) -> (kind: FileKind)
    ensures
        kind == file_kind(name@),
{
    if str_ends_with(name, ".sst") {
        FileKind::SSTable
    } else if str_starts_with(name, "memtable_") && str_ends_with(name, ".log") {
        FileKind::MemtableLog
    } else {
        FileKind::Other
    }
}

/// The digit `d` as a string.
fn digit_str(d: u64) -> (s: &'static str)
    requires
        d < 10,
    ensures
        s@ == seq![digit_char(d as int)],
{
    proof {
        reveal_strlit("0");
        reveal_strlit("1");
        reveal_strlit("2");
        reveal_strlit("3");
        reveal_strlit("4");
        reveal_strlit("5");
        reveal_strlit("6");
        reveal_strlit("7");
        reveal_strlit("8");
        reveal_strlit("9");
    }
    let s = if d == 0 {
        "0"
    } else if d == 1 {
        "1"
    } else if d == 2 {
        "2"
    } else if d == 3 {
        "3"
    } else if d == 4 {
        "4"
    } else if d == 5 {
        "5"
    } else if d == 6 {
        "6"
    } else if d == 7 {
        "7"
    } else if d == 8 {
        "8"
    } else {
        "9"
    };
    assert(s@ =~= seq![digit_char(d as int)]);
    s
}

/// A number in decimal digits.
pub fn decimal_string(n: u64) -> (s: String)
    ensures
        s@ == decimal(n as nat),
    decreases n,
{
    if n < 10 {
        String::from_str(digit_str(n))
    } else {
        let mut s = decimal_string(n / 10);
        s.append(digit_str(n % 10));
        assert(s@ =~= decimal(n as nat));
        s
    }
}

/// The path of the file `name` in `folder`.
pub fn join_path(folder: &str, name: &str) -> (path: String)
    ensures
        path@ == path_join(folder@, name@),
{
    let n = folder.unicode_len();
    if n == 0 {
        return String::from_str(name);
    }
    let mut path = String::from_str(folder);
    if folder.get_char(n - 1) != '/' {
        proof {
            reveal_strlit("/");
        }
        path.append("/");
        assert(path@ =~= folder@ + seq!['/']);
    }
    path.append(name);
    path
}

/// The name of the write-ahead log with the number `suffix`.
pub fn memtable_file_name(suffix: u64) -> (name: String)
    ensures
        name@ == memtable_name(suffix),
{
    let mut name = String::from_str("memtable_");
    name.append(decimal_string(suffix).as_str());
    name.append(".log");
    name
}

/// The name of the run of generation `gen_no` with the number `suffix`.
pub fn sstable_file_name(gen_no: usize, suffix: u64) -> (name: String)
    ensures
        name@ == sstable_name(gen_no, suffix),
{
    let mut name = String::from_str("gen_");
    name.append(decimal_string(gen_no as u64).as_str());
    name.append("_");
    name.append(decimal_string(suffix).as_str());
    name.append(".sst");
    name
}

/// `rand::thread_rng().gen::<u64>()`: a number drawn from the generator
/// of the running thread. Nothing is claimed of the number.
#[verifier::external_body]
pub(crate) fn random_u64() -> u64 {
    rand::thread_rng().gen::<u64>()
}

} // verus!
