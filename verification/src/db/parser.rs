use crate::db::sql_enums::{SQLKeyword, SQLOperator, SQLType};
use crate::db::storage_engine::StorageEngine;
use vstd::prelude::*;
use vstd::string::StrSliceExecFns;

verus! {

/// Reads the text of a query.
pub struct Parser {
    pub storage_engine: StorageEngine,
}

#[derive(Debug, PartialEq, Clone)]
pub enum SQLQuery {
    Select(SelectQuery),
    Insert(InsertQuery),
    Create(CreateQuery),
}

#[derive(Debug, PartialEq, Clone)]
pub struct SelectQuery {
    pub columns: Vec<String>,
    pub table: String,
    pub where_clause: Option<WhereClause>,
}

#[derive(Debug, PartialEq, Clone)]
pub struct InsertQuery {
    pub table: String,
    pub values: Vec<String>,
}

#[derive(Debug, PartialEq, Clone)]
pub struct CreateQuery {
    pub table: String,
    pub columns: Vec<ColumnDefinition>,
}

#[derive(Debug, PartialEq, Clone)]
pub struct ColumnDefinition {
    pub name: String,
    pub data_type: SQLType,
}

#[derive(Debug, PartialEq, Clone)]
pub struct WhereClause {
    pub column: String,
    pub operator: SQLOperator,
    pub value: String,
}

/// The words of `s`: its parts between runs of white space, in order, as
/// `str::split_whitespace` gives them.
pub uninterp spec fn words_of(s: Seq<char>) -> Seq<Seq<char>>;

/// Calls `str::split_whitespace` and hands out each word as a `String`. The
/// result is a function of the text alone; the contract gives it the name
/// `words_of` and says no more of it.
#[verifier::external_body]
fn split_words(s: &str) -> (words: Vec<String>)
    ensures
        words.deep_view() == words_of(s@),
{
    s.split_whitespace().map(|word| word.to_owned()).collect()
}

/// What the words of a query are read as.
pub enum Reading {
    /// There are no words.
    Empty,
    /// The last word does not end in `;`.
    Unfinished,
    /// The first keyword among the words is not one that starts a query
    /// that can be read, or there is no keyword.
    Unsupported,
    /// A selection from the table of this name.
    Select(Seq<char>),
}

/// Whether `word` ends in `;`.
pub open spec fn is_finished(word: Seq<char>) -> bool {
    word.len() > 0 && word.last() == ';'
}

/// Whether the first keyword among `words` is `INSERT`.
pub open spec fn starts_insert(words: Seq<Seq<char>>) -> bool
    decreases words.len(),
{
    if words.len() == 0 {
        false
    } else {
        match SQLKeyword::of_word(words.first()) {
            Some(keyword) => keyword is INSERT,
            None => starts_insert(words.drop_first()),
        }
    }
}

/// The table that a selection names: its last word.
pub open spec fn table_of(words: Seq<Seq<char>>) -> Seq<char> {
    if words.len() > 0 {
        words.last()
    } else {
        Seq::empty()
    }
}

/// What `words` are read as. A query must end in `;`. One whose first
/// keyword is `INSERT` is read as a selection from the table that its last
/// word names; no other query is supported.
pub open spec fn reading_of(words: Seq<Seq<char>>) -> Reading {
    if words.len() == 0 {
        Reading::Empty
    } else if !is_finished(words.last()) {
        Reading::Unfinished
    } else if starts_insert(words) {
        Reading::Select(table_of(words))
    } else {
        Reading::Unsupported
    }
}

/// Whether `parsed` says what `reading` is: the selection, or the message
/// of the failure.
pub open spec fn tells(parsed: Result<SQLQuery, String>, reading: Reading) -> bool {
    match reading {
        Reading::Empty => parsed matches Err(message) && message@ == "Empty SQL"@,
        Reading::Unfinished => parsed matches Err(message) && message@ == "Invalid SQL"@,
        Reading::Unsupported => parsed matches Err(message) && message@
            == "Unsupported SQL Command"@,
        Reading::Select(table) => parsed matches Ok(SQLQuery::Select(query)) && query.table@
            == table && query.columns@.len() == 0 && query.where_clause is None,
    }
}

impl Parser {
    pub fn new(storage_engine: StorageEngine) -> (parser: Self)
        ensures
            parser.storage_engine == storage_engine,
    {
        Parser { storage_engine }
    }

    /// Reads the text of a query: splits it into words and reads those.
    pub fn parse(&self, sql: String) -> (parsed: Result<SQLQuery, String>)
        ensures
            tells(parsed, reading_of(words_of(sql@))),
    {
        let words = split_words(sql.as_str());
        self.parse_words(&words)
    }

    /// Reads the words of a query.
    pub fn parse_words(&self, words: &Vec<String>) -> (parsed: Result<SQLQuery, String>)
        ensures
            tells(parsed, reading_of(words.deep_view())),
    {
        let ghost all = words.deep_view();
        if words.len() == 0 {
            return Err("Empty SQL".to_owned());
        }
        let last = words[words.len() - 1].as_str();
        assert(last@ == all.last());
        let length = last.unicode_len();
        if length == 0 || last.get_char(length - 1) != ';' {
            return Err("Invalid SQL".to_owned());
        }
        let mut i: usize = 0;
        assert(all.skip(0) =~= all);
        while i < words.len()
            invariant
                i <= words.len(),
                all == words.deep_view(),
                all.len() > 0,
                is_finished(all.last()),
                starts_insert(all) == starts_insert(all.skip(i as int)),
            decreases words.len() - i,
        {
            let ghost rest = all.skip(i as int);
            proof {
                assert(rest.first() == words[i as int]@);
                assert(rest.drop_first() =~= all.skip(i + 1));
            }
            match SQLKeyword::from_str(words[i].as_str()) {
                Some(SQLKeyword::INSERT) => {
                    return self.parse_select(words);
                },
                Some(_) => {
                    return Err("Unsupported SQL Command".to_owned());
                },
                None => {},
            }
            i += 1;
        }
        Err("Unsupported SQL Command".to_owned())
    }

    /// Reads the words of a selection: the table is the one that the last
    /// word names, all columns are selected and no condition is set. Without
    /// words the table has the empty name.
    pub fn parse_select(&self, words: &Vec<String>) -> (parsed: Result<SQLQuery, String>)
        ensures
            tells(parsed, Reading::Select(table_of(words.deep_view()))),
    {
        let table = if words.len() > 0 {
            words[words.len() - 1].clone()
        } else {
            String::new()
        };
        let query = SelectQuery { columns: Vec::new(), table, where_clause: None };
        Ok(SQLQuery::Select(query))
    }
}

} // verus!
