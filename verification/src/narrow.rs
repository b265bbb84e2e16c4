//! Narrows: filters for messages, as written in a search box.
//!
//! A narrow is either a filter of the form `[-]<operator>:<operand>` or a plain search
//! keyword. Caches of message streams are looked up by such filters.
use vstd::prelude::*;
use vstd::string::*;

verus! {

/// A filter for messages.
///
/// A narrow restricts a set of messages by one factor, such as the sender, the stream, the
/// topic or a search keyword.
#[derive(Debug, Clone, PartialEq)]
pub struct Narrow {
    pub operator: String,
    pub operand: String,
    pub negated: bool,
}

/// What a narrow says, with its strings as sequences of characters.
pub struct NarrowView {
    pub operator: Seq<char>,
    pub operand: Seq<char>,
    pub negated: bool,
}

impl View for Narrow {
    type V = NarrowView;

    open spec fn view(&self) -> NarrowView {
        NarrowView { operator: self.operator@, operand: self.operand@, negated: self.negated }
    }
}

/// The operator of a narrow that searches for a keyword.
pub open spec fn search_operator() -> Seq<char> {
    seq!['s', 'e', 'a', 'r', 'c', 'h']
}

/// The narrow that searches for `keyword`.
pub open spec fn keyword_narrow(keyword: Seq<char>) -> NarrowView {
    NarrowView { operator: search_operator(), operand: keyword, negated: false }
}

/// The position of the first colon in `s`, or the length of `s` if it holds none.
pub open spec fn first_colon(s: Seq<char>) -> int
    decreases s.len(),
{
    if s.len() == 0 || s[0] == ':' {
        0
    } else {
        1 + first_colon(s.drop_first())
    }
}

/// The narrow that `text` stands for. Without a colon the whole text is a search keyword.
/// Otherwise the first colon parts operator and operand, and a dash at the start of the
/// operator negates the filter and is not part of the operator.
pub open spec fn parsed(text: Seq<char>) -> NarrowView {
    let colon = first_colon(text);
    if colon >= text.len() {
        keyword_narrow(text)
    } else {
        let head = text.subrange(0, colon);
        let operand = text.subrange(colon + 1, text.len() as int);
        if head.len() > 0 && head[0] == '-' {
            NarrowView { operator: head.subrange(1, head.len() as int), operand, negated: true }
        } else {
            NarrowView { operator: head, operand, negated: false }
        }
    }
}

/// A position before which no colon stands, and which holds a colon or is the end, is the
/// position of the first colon.
pub proof fn lemma_first_colon(s: Seq<char>, i: int)
    requires
        0 <= i <= s.len(),
        forall|j: int| 0 <= j < i ==> s[j] != ':',
        i < s.len() ==> s[i] == ':',
    ensures
        first_colon(s) == i,
    decreases i,
{
    if i > 0 {
        let t = s.drop_first();
        assert forall|j: int| 0 <= j < i - 1 implies t[j] != ':' by {
            assert(t[j] == s[j + 1]);
        }
        lemma_first_colon(t, i - 1);
    }
}

impl Narrow {
    /// Creates a narrow from a search keyword.
    pub fn keyword(keyword: String) -> (r: Self)
        ensures
            r@ == keyword_narrow(keyword@),
    {
        proof {
            reveal_strlit("search");
        }
        let operator = "search".to_owned();
        assert(operator@ =~= search_operator());
        Self { operand: keyword, operator, negated: false }
    }

    /// Parses a filter of the form `[-]<operator>:<operand>`, or a keyword otherwise.
    ///
    /// A text with a colon is a filter, negated if it starts with a dash; a text without a
    /// colon is a search for the text as a keyword.
    pub fn parse(text: &str) -> (r: Self)
        ensures
            r@ == parsed(text@),
    {
        let n = text.unicode_len();
        let mut i: usize = 0;
        while i < n && text.get_char(i) != ':'
            invariant
                0 <= i <= n,
                n == text@.len(),
                forall|j: int| 0 <= j < i ==> text@[j] != ':',
            decreases n - i,
        {
            i = i + 1;
        }
        proof {
            lemma_first_colon(text@, i as int);
        }
        if i == n {
            Self::keyword(text.to_owned())
        } else {
            let operand = text.substring_char(i + 1, n);
            if i > 0 && text.get_char(0) == '-' {
                let operator = text.substring_char(1, i);
                assert(operator@ =~= text@.subrange(0, i as int).subrange(1, i as int));
                Self { operator: operator.to_owned(), operand: operand.to_owned(), negated: true }
            } else {
                let operator = text.substring_char(0, i);
                Self { operator: operator.to_owned(), operand: operand.to_owned(), negated: false }
            }
        }
    }
}

} // verus!
