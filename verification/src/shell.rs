//! Where the tables of each family live: directory and file names.

use vstd::prelude::*;
use vstd::string::*;
use crate::codec::decimal_digits;
use crate::gendata::CollisionResolver;

verus! {

/// The file name of a primary table inside its directory.
pub const BUNDLE_NAME: &'static str = "db.bin";

/// The decimal digit `d` as a character.
pub open spec fn digit_char(d: nat) -> char {
    if d == 0 {
        '0'
    } else if d == 1 {
        '1'
    } else if d == 2 {
        '2'
    } else if d == 3 {
        '3'
    } else if d == 4 {
        '4'
    } else if d == 5 {
        '5'
    } else if d == 6 {
        '6'
    } else if d == 7 {
        '7'
    } else if d == 8 {
        '8'
    } else {
        '9'
    }
}

/// The decimal text of `n`, most significant digit first, without leading
/// zeros.
pub open spec fn decimal_chars(n: nat) -> Seq<char>
    decreases n,
{
    if n < 10 {
        seq![digit_char(n)]
    } else {
        decimal_chars(n / 10).push(digit_char(n % 10))
    }
}

/// The decimal text of a number is the same whether it is taken as characters
/// or as ASCII bytes.
pub proof fn lemma_decimal_text(n: nat)
    ensures
        decimal_chars(n).len() == decimal_digits(n).len(),
        forall|i: int|
            0 <= i < decimal_chars(n).len() ==> (#[trigger] decimal_chars(n)[i]) as u8
                == decimal_digits(n)[i],
    decreases n,
{
    if n >= 10 {
        lemma_decimal_text(n / 10);
    }
}

/// The text of one decimal digit.
fn digit_str(d: u32) -> (s: &'static str)
    requires
        d < 10,
    ensures
        s@ == seq![digit_char(d as nat)],
{
    proof {
        reveal_strlit("0");
        reveal_strlit("1");
        reveal_strlit("2");
        reveal_strlit("3");
        reveal_strlit("4");
        reveal_strlit("5");
        reveal_strlit("6");
        reveal_strlit("7");
        reveal_strlit("8");
        reveal_strlit("9");
    }
    let s = if d == 0 {
        "0"
    } else if d == 1 {
        "1"
    } else if d == 2 {
        "2"
    } else if d == 3 {
        "3"
    } else if d == 4 {
        "4"
    } else if d == 5 {
        "5"
    } else if d == 6 {
        "6"
    } else if d == 7 {
        "7"
    } else if d == 8 {
        "8"
    } else {
        "9"
    };
    assert(s@ =~= seq![digit_char(d as nat)]);
    s
}

/// Appends the decimal text of `n`.
fn push_decimal(s: &mut String, n: u32)
    ensures
        final(s)@ == old(s)@ + decimal_chars(n as nat),
    decreases n,
{
    if n >= 10 {
        push_decimal(s, n / 10);
    }
    s.append(digit_str(n % 10));
    proof {
        if n < 10 {
            assert(n % 10 == n);
            assert(s@ =~= old(s)@ + decimal_chars(n as nat));
        } else {
            assert(s@ =~= old(s)@ + decimal_chars(n as nat));
        }
    }
}

/// The directory of primary table `id`.
pub open spec fn spec_tbl_dir(id: u32) -> Seq<char> {
    "data"@ + decimal_chars(id as nat)
}

/// The path of primary table `id`.
pub open spec fn spec_tbl_path(id: u32) -> Seq<char> {
    spec_tbl_dir(id) + "/"@ + "db.bin"@
}

/// The path of duplicate table `id`.
pub open spec fn spec_tbl_dup_path(id: u32) -> Seq<char> {
    "data_dup"@ + "/"@ + "db_dup_"@ + decimal_chars(id as nat) + ".bin"@
}

/// The path of table `id` of the resolution database that rehashing gives.
pub open spec fn spec_rehash_path(id: u32) -> Seq<char> {
    "data_cr_rehash"@ + "/"@ + "db_cr_rehash_"@ + decimal_chars(id as nat) + ".bin"@
}

/// The directory of primary table `id`: `data{id}`.
pub fn tbl_dir(id: u32) -> (path: String)
    ensures
        path@ == spec_tbl_dir(id),
{
    let mut path = String::from_str("data");
    push_decimal(&mut path, id);
    path
}

/// The path of primary table `id`: `data{id}/db.bin`.
pub fn tbl_path(id: u32) -> (path: String)
    ensures
        path@ == spec_tbl_path(id),
{
    let mut path = tbl_dir(id);
    path.append("/");
    path.append(BUNDLE_NAME);
    path
}

/// The directory of the duplicate tables: `data_dup`.
pub fn tbl_dup_dir() -> (path: String)
    ensures
        path@ == "data_dup"@,
{
    String::from_str("data_dup")
}

/// The path of duplicate table `id`: `data_dup/db_dup_{id}.bin`.
pub fn tbl_dup_path(id: u32) -> (path: String)
    ensures
        path@ == spec_tbl_dup_path(id),
{
    let mut path = tbl_dup_dir();
    path.append("/");
    path.append("db_dup_");
    push_decimal(&mut path, id);
    path.append(".bin");
    path
}

impl CollisionResolver {
    /// The directory of the resolution database.
    pub fn dir(&self) -> (path: String)
        ensures
            path@ == "data_cr_rehash"@,
    {
        match self {
            CollisionResolver::Rehash => String::from_str("data_cr_rehash"),
        }
    }

    /// The path of table `id` of the resolution database:
    /// `data_cr_rehash/db_cr_rehash_{id}.bin`.
    pub fn pathbuf(&self, id: u32) -> (path: String)
        ensures
            path@ == spec_rehash_path(id),
    {
        match self {
            CollisionResolver::Rehash => {
                let mut path = self.dir();
                path.append("/");
                path.append("db_cr_rehash_");
                push_decimal(&mut path, id);
                path.append(".bin");
                path
            },
        }
    }
}

/// A table by its family and its number.
#[derive(Debug, Clone, Copy, PartialEq, Eq, Structural)]
pub enum TblTy {
    /// A primary table.
    Normal(u32),
    /// A table of duplicates.
    Dup(u32),
    /// A table of a resolution database.
    Resolve(u32, CollisionResolver),
}

impl TblTy {
    /// The number of the table within its family.
    pub open spec fn spec_id(self) -> u32 {
        match self {
            TblTy::Normal(id) => id,
            TblTy::Dup(id) => id,
            TblTy::Resolve(id, _) => id,
        }
    }

    /// The same family with another number.
    pub open spec fn with_id(self, id: u32) -> TblTy {
        match self {
            TblTy::Normal(_) => TblTy::Normal(id),
            TblTy::Dup(_) => TblTy::Dup(id),
            TblTy::Resolve(_, resolver) => TblTy::Resolve(id, resolver),
        }
    }

    /// The path of the table's file.
    pub open spec fn spec_path(self) -> Seq<char> {
        match self {
            TblTy::Normal(id) => spec_tbl_path(id),
            TblTy::Dup(id) => spec_tbl_dup_path(id),
            TblTy::Resolve(id, _) => spec_rehash_path(id),
        }
    }

    /// The number of the table within its family.
    pub fn id(&self) -> (id: u32)
        ensures
            id == self.spec_id(),
    {
        match self {
            TblTy::Normal(id) => *id,
            TblTy::Dup(id) => *id,
            TblTy::Resolve(id, _) => *id,
        }
    }

    /// The path of the table's file.
    pub fn pathbuf(&self) -> (path: String)
        ensures
            path@ == self.spec_path(),
    {
        match self {
            TblTy::Normal(id) => tbl_path(*id),
            TblTy::Dup(id) => tbl_dup_path(*id),
            TblTy::Resolve(id, resolver) => resolver.pathbuf(*id),
        }
    }

    /// The next table of the same family.
    pub fn add(&self) -> (next: TblTy)
        requires
            self.spec_id() < u32::MAX,
        ensures
            next == self.with_id((self.spec_id() + 1) as u32),
    {
        match self {
            TblTy::Normal(id) => TblTy::Normal(*id + 1),
            TblTy::Dup(id) => TblTy::Dup(*id + 1),
            TblTy::Resolve(id, resolver) => TblTy::Resolve(*id + 1, *resolver),
        }
    }
}

} // verus!
