//! The names of the store's files and directories.
//!
//! A table's data file is called `sstable_<ms>_.db` and its index file
//! `index_<ms>_.db`, where `<ms>` is the table's creation time in
//! milliseconds, written in decimal; a bucket's directory is called
//! `bucket<id>`.  Path components are joined with `/`.
use vstd::prelude::*;

verus! {

/// The character of a decimal digit.
pub open spec fn digit_char(d: nat) -> char {
    if d == 0 {
        '0'
    } else if d == 1 {
        '1'
    } else if d == 2 {
        '2'
    } else if d == 3 {
        '3'
    } else if d == 4 {
        '4'
    } else if d == 5 {
        '5'
    } else if d == 6 {
        '6'
    } else if d == 7 {
        '7'
    } else if d == 8 {
        '8'
    } else {
        '9'
    }
}

/// A number in decimal, without sign or leading zeros.
pub open spec fn decimal(n: nat) -> Seq<char>
    decreases n,
{
    if n < 10 {
        seq![digit_char(n)]
    } else {
        decimal(n / 10).push(digit_char(n % 10))
    }
}

/// `dir` and `name` joined into one path.
pub open spec fn joined(dir: Seq<char>, name: Seq<char>) -> Seq<char> {
    dir + seq!['/'] + name
}

/// The name of the data file of a table created at `created_at`.
pub open spec fn data_file_name_of(created_at: u64) -> Seq<char> {
    "sstable_"@ + decimal(created_at as nat) + "_.db"@
}

/// The name of the index file of a table created at `created_at`.
pub open spec fn index_file_name_of(created_at: u64) -> Seq<char> {
    "index_"@ + decimal(created_at as nat) + "_.db"@
}

/// `u64::to_string`: the number in decimal, without sign or leading zeros.
#[verifier::external_body]
pub(crate) fn u64_to_string(n: u64) -> (s: String)
    ensures
        s@ == decimal(n as nat),
{
    n.to_string()
}

/// `String::push_str`: appends `t` to `s`.
#[verifier::external_body]
pub(crate) fn push_str(s: &mut String, t: &str)
    ensures
        final(s)@ == old(s)@ + t@,
{
    s.push_str(t)
}

/// Joins a directory and a name with `/`.
pub fn join_path(dir: &str, name: &str) -> (p: String)
    ensures
        p@ == joined(dir@, name@),
{
    let mut p: String = dir.to_owned();
    proof {
        reveal_strlit("/");
        assert("/"@ =~= seq!['/']);
    }
    push_str(&mut p, "/");
    push_str(&mut p, name);
    p
}

/// The name of the data file of a table created at `created_at`.
pub fn data_file_name(created_at: u64) -> (name: String)
    ensures
        name@ == data_file_name_of(created_at),
{
    let mut name: String = "sstable_".to_owned();
    let digits = u64_to_string(created_at);
    push_str(&mut name, digits.as_str());
    push_str(&mut name, "_.db");
    name
}

/// The name of the index file of a table created at `created_at`.
pub fn index_file_name(created_at: u64) -> (name: String)
    ensures
        name@ == index_file_name_of(created_at),
{
    let mut name: String = "index_".to_owned();
    let digits = u64_to_string(created_at);
    push_str(&mut name, digits.as_str());
    push_str(&mut name, "_.db");
    name
}

} // verus!
