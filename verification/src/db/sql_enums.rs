use crate::db::text::str_eq;
use vstd::prelude::*;

verus! {

/// The comparisons that a query can name.
#[allow(non_camel_case_types)]
#[derive(Clone, Debug, PartialEq)]
pub enum SQLOperator {
    EQUALS,
    GREATER_THAN,
    LESS_THAN,
    GREATER_THAN_OR_EQUALS,
    LESS_THAN_OR_EQUALS,
}

/// The aggregate functions that a query can name.
pub enum SQLFunction {
    COUNT,
    SUM,
    AVG,
    MAX,
    MIN,
}

/// The types that a column can be declared with.
#[derive(Clone, Debug, PartialEq)]
pub enum SQLType {
    INTEGER,
    STRING,
    FLOAT,
    TABLE,
}

/// The words that the query language reserves.
pub enum SQLKeyword {
    SELECT,
    FROM,
    WHERE,
    INSERT,
    INTO,
    VALUES,
    ALL,
    Create,
}

/// The text of `s` with every letter in upper case, as `str::to_uppercase`
/// gives it.
pub uninterp spec fn uppercase(s: Seq<char>) -> Seq<char>;

/// Calls `str::to_uppercase`. The result is a function of the text alone; the
/// contract gives it the name `uppercase` and says no more of it.
#[verifier::external_body]
fn to_upper(s: &str) -> (out: String)
    ensures
        out@ == uppercase(s@),
{
    s.to_uppercase()
}

impl SQLKeyword {
    /// How the keyword is written.
    pub open spec fn text(self) -> Seq<char> {
        match self {
            SQLKeyword::SELECT => "SELECT"@,
            SQLKeyword::FROM => "FROM"@,
            SQLKeyword::WHERE => "WHERE"@,
            SQLKeyword::INSERT => "INSERT"@,
            SQLKeyword::INTO => "INTO"@,
            SQLKeyword::VALUES => "VALUES"@,
            SQLKeyword::ALL => "*"@,
            SQLKeyword::Create => "CREATE"@,
        }
    }

    /// The keyword that the upper-case word `word` stands for. `CREATE` is
    /// written out by `as_str` and is not read back.
    pub open spec fn of_upper(word: Seq<char>) -> Option<SQLKeyword> {
        if word == "SELECT"@ {
            Some(SQLKeyword::SELECT)
        } else if word == "FROM"@ {
            Some(SQLKeyword::FROM)
        } else if word == "WHERE"@ {
            Some(SQLKeyword::WHERE)
        } else if word == "INSERT"@ {
            Some(SQLKeyword::INSERT)
        } else if word == "INTO"@ {
            Some(SQLKeyword::INTO)
        } else if word == "VALUES"@ {
            Some(SQLKeyword::VALUES)
        } else if word == "*"@ {
            Some(SQLKeyword::ALL)
        } else {
            None
        }
    }

    /// The keyword that `word` stands for, in whatever case it is written.
    pub open spec fn of_word(word: Seq<char>) -> Option<SQLKeyword> {
        Self::of_upper(uppercase(word))
    }

    /// How the keyword is written.
    pub fn as_str(&self) -> (s: &str)
        ensures
            s@ == self.text(),
    {
        match self {
            SQLKeyword::SELECT => "SELECT",
            SQLKeyword::FROM => "FROM",
            SQLKeyword::WHERE => "WHERE",
            SQLKeyword::INSERT => "INSERT",
            SQLKeyword::INTO => "INTO",
            SQLKeyword::VALUES => "VALUES",
            SQLKeyword::ALL => "*",
            SQLKeyword::Create => "CREATE",
        }
    }

    /// The keyword that the upper-case word `word` stands for.
    pub fn from_upper(word: &str) -> (keyword: Option<SQLKeyword>)
        ensures
            keyword == Self::of_upper(word@),
    {
        if str_eq(word, "SELECT") {
            Some(SQLKeyword::SELECT)
        } else if str_eq(word, "FROM") {
            Some(SQLKeyword::FROM)
        } else if str_eq(word, "WHERE") {
            Some(SQLKeyword::WHERE)
        } else if str_eq(word, "INSERT") {
            Some(SQLKeyword::INSERT)
        } else if str_eq(word, "INTO") {
            Some(SQLKeyword::INTO)
        } else if str_eq(word, "VALUES") {
            Some(SQLKeyword::VALUES)
        } else if str_eq(word, "*") {
            Some(SQLKeyword::ALL)
        } else {
            None
        }
    }

    /// The keyword that `s` stands for, in whatever case it is written.
    pub fn from_str(s: &str) -> (keyword: Option<SQLKeyword>)
        ensures
            keyword == Self::of_word(s@),
    {
        let upper = to_upper(s);
        Self::from_upper(upper.as_str())
    }
}

} // verus!
