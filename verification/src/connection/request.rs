//! The text of a request: `username||dbname||command`. With an empty
//! database name the command must be one that creates a database.

use vstd::prelude::*;
use vstd::string::{StrSliceExecFns, StringExecFns};
use crate::manager::pool::PoolError;

verus! {

/// Why a request was refused.
#[derive(Debug, Clone, PartialEq, Eq)]
pub enum RequestError {
    /// The session pool failed.
    PoolError(PoolError),
    /// The command could not be read or carried out; the message says why.
    CauseByParser(String),
    /// There is no such user.
    UserNotExist(String),
    /// Without a database only a command that creates one is accepted.
    CreateDBBeforeCmd,
    /// The text is not of the form `username||dbname||command`.
    BadRequest,
}

impl RequestError {
    /// The message of the error.
    pub open spec fn text(self) -> Seq<char> {
        match self {
            RequestError::PoolError(e) => "error caused by pool: "@ + e.text(),
            RequestError::CauseByParser(why) => "error caused by parser: "@ + why@,
            RequestError::UserNotExist(name) => "user: "@ + name@ + " not found"@,
            RequestError::CreateDBBeforeCmd => "please create a database before any other commands"@,
            RequestError::BadRequest => "BadRequest, invalid request format"@,
        }
    }

    /// The message of the error.
    pub fn message(&self) -> (s: String)
        ensures
            s@ == self.text(),
    {
        match self {
            RequestError::PoolError(e) => {
                let inner = e.message();
                "error caused by pool: ".to_owned().concat(inner.as_str())
            },
            RequestError::CauseByParser(why) => "error caused by parser: ".to_owned().concat(
                why.as_str(),
            ),
            RequestError::UserNotExist(name) => "user: ".to_owned().concat(name.as_str()).concat(
                " not found",
            ),
            RequestError::CreateDBBeforeCmd => "please create a database before any other commands".to_owned(),
            RequestError::BadRequest => "BadRequest, invalid request format".to_owned(),
        }
    }
}

/// The three parts of a request.
#[derive(Debug, Clone, PartialEq, Eq)]
pub struct Command {
    pub username: String,
    /// Empty if the request names no database.
    pub dbname: String,
    /// The command, closed with a semicolon.
    pub cmd: String,
}

/// White space: the characters that Unicode marks `White_Space`.
pub open spec fn is_space(c: char) -> bool {
    let u = c as u32;
    ||| 0x9 <= u <= 0xD
    ||| u == 0x20
    ||| u == 0x85
    ||| u == 0xA0
    ||| u == 0x1680
    ||| 0x2000 <= u <= 0x200A
    ||| u == 0x2028
    ||| u == 0x2029
    ||| u == 0x202F
    ||| u == 0x205F
    ||| u == 0x3000
}

/// The place of the first `||` in `s`; the length of `s` if there is none.
pub open spec fn first_bars(s: Seq<char>) -> int
    decreases s.len(),
{
    if s.len() < 2 {
        s.len() as int
    } else if s[0] == '|' && s[1] == '|' {
        0
    } else {
        1 + first_bars(s.drop_first())
    }
}

/// The parts of `s` between its `||`, found from the left.
pub open spec fn split_bars(s: Seq<char>) -> Seq<Seq<char>>
    decreases s.len(),
{
    let p = first_bars(s);
    if p >= s.len() {
        seq![s]
    } else {
        proof {
            lemma_first_bars(s);
        }
        seq![s.take(p)] + split_bars(s.skip(p + 2))
    }
}

/// The number of characters at the start of `s` that are white space
/// (`spaces`) or that are not (`!spaces`).
pub open spec fn run_length(s: Seq<char>, spaces: bool) -> int
    decreases s.len(),
{
    if s.len() == 0 || is_space(s[0]) != spaces {
        0
    } else {
        1 + run_length(s.drop_first(), spaces)
    }
}

/// The first word of `s`: what stands between the white space at its start
/// and the next white space. Empty if `s` has no word.
pub open spec fn first_word(s: Seq<char>) -> Seq<char> {
    let t = s.skip(run_length(s, true));
    t.take(run_length(t, false))
}

/// What follows the first word of `s`.
pub open spec fn after_first_word(s: Seq<char>) -> Seq<char> {
    let t = s.skip(run_length(s, true));
    t.skip(run_length(t, false))
}

/// The first two words of `cmd` are `create` and `database`.
pub open spec fn creates_database(cmd: Seq<char>) -> bool {
    first_word(cmd) == "create"@ && first_word(after_first_word(cmd)) == "database"@
}

/// Where the first `||` stands, if there is one.
pub proof fn lemma_first_bars(s: Seq<char>)
    ensures
        0 <= first_bars(s) <= s.len(),
        first_bars(s) < s.len() ==> first_bars(s) + 2 <= s.len() && s[first_bars(s)] == '|' && s[
            first_bars(s) + 1] == '|',
    decreases s.len(),
{
    if s.len() >= 2 && !(s[0] == '|' && s[1] == '|') {
        lemma_first_bars(s.drop_first());
    }
}

/// A text has at least one part.
pub proof fn lemma_split_bars_nonempty(s: Seq<char>)
    ensures
        split_bars(s).len() >= 1,
    decreases s.len(),
{
    lemma_first_bars(s);
    let p = first_bars(s);
    if p < s.len() {
        lemma_split_bars_nonempty(s.skip(p + 2));
    }
}

/// Whether `c` is white space.
pub fn is_space_char(c: char) -> (b: bool)
    ensures
        b == is_space(c),
{
    let u = c as u32;
    (0x9 <= u && u <= 0xD) || u == 0x20 || u == 0x85 || u == 0xA0 || u == 0x1680 || (0x2000 <= u
        && u <= 0x200A) || u == 0x2028 || u == 0x2029 || u == 0x202F || u == 0x205F || u == 0x3000
}

/// The characters of `text`.
fn chars_of(text: &str) -> (out: Vec<char>)
    ensures
        out@ == text@,
{
    let mut out: Vec<char> = Vec::new();
    for c in it: text.chars()
        invariant
            out@ == it.seq().take(it.index() as int),
            it.seq() == text@,
    {
        out.push(c);
    }
    out
}

/// The place of the first `||` at or after `from`; the length of `chars` if
/// there is none.
fn find_bars(chars: &Vec<char>, from: usize) -> (p: usize)
    requires
        from <= chars@.len(),
    ensures
        p == from + first_bars(chars@.skip(from as int)),
        from <= p <= chars@.len(),
{
    let n = chars.len();
    let mut i: usize = from;
    while n - i >= 2 && !(chars[i] == '|' && chars[i + 1] == '|')
        invariant
            n == chars@.len(),
            from <= i <= n,
            from + first_bars(chars@.skip(from as int)) == i + first_bars(chars@.skip(i as int)),
        decreases n - i,
    {
        proof {
            let t = chars@.skip(i as int);
            assert(t[0] == chars@[i as int] && t[1] == chars@[i + 1]);
            assert(t.drop_first() =~= chars@.skip(i + 1));
        }
        i += 1;
    }
    proof {
        let t = chars@.skip(i as int);
        if n - i >= 2 {
            assert(t[0] == chars@[i as int] && t[1] == chars@[i + 1]);
        }
    }
    if n - i >= 2 {
        i
    } else {
        n
    }
}

/// The end of the run of white space (`spaces`) or of other characters
/// (`!spaces`) that starts at `from`.
fn run_end(chars: &Vec<char>, from: usize, spaces: bool) -> (end: usize)
    requires
        from <= chars@.len(),
    ensures
        end == from + run_length(chars@.skip(from as int), spaces),
        from <= end <= chars@.len(),
{
    let n = chars.len();
    let mut i: usize = from;
    while i < n && is_space_char(chars[i]) == spaces
        invariant
            n == chars@.len(),
            from <= i <= n,
            from + run_length(chars@.skip(from as int), spaces) == i + run_length(
                chars@.skip(i as int),
                spaces,
            ),
        decreases n - i,
    {
        proof {
            let t = chars@.skip(i as int);
            assert(t[0] == chars@[i as int]);
            assert(t.drop_first() =~= chars@.skip(i + 1));
        }
        i += 1;
    }
    proof {
        let t = chars@.skip(i as int);
        if i < n {
            assert(t[0] == chars@[i as int]);
        }
    }
    i
}

/// Whether the characters from `from` up to `to` spell `word`.
fn spells(chars: &Vec<char>, from: usize, to: usize, word: &str) -> (b: bool)
    requires
        from <= to <= chars@.len(),
    ensures
        b == (chars@.subrange(from as int, to as int) == word@),
{
    let letters = chars_of(word);
    let ghost part = chars@.subrange(from as int, to as int);
    assert(part.len() == to - from);
    if letters.len() != to - from {
        return false;
    }
    let mut i: usize = 0;
    while i < letters.len()
        invariant
            from <= to <= chars@.len(),
            letters@.len() == to - from,
            letters@ == word@,
            part == chars@.subrange(from as int, to as int),
            i <= letters@.len(),
            forall|k: int| 0 <= k < i ==> part[k] == letters@[k],
        decreases letters@.len() - i,
    {
        if chars[from + i] != letters[i] {
            assert(part[i as int] != letters@[i as int]);
            return false;
        }
        i += 1;
    }
    assert(part =~= letters@);
    true
}

/// Whether the first two words of `cmd` are `create` and `database`.
fn begins_create_database(cmd: &str) -> (b: bool)
    ensures
        b == creates_database(cmd@),
{
    let chars = chars_of(cmd);
    let start = run_end(&chars, 0, true);
    let end = run_end(&chars, start, false);
    let next = run_end(&chars, end, true);
    let last = run_end(&chars, next, false);
    proof {
        let s = chars@;
        assert(s.skip(0) =~= s);
        let t = s.skip(start as int);
        assert(first_word(s) =~= s.subrange(start as int, end as int));
        let rest = after_first_word(s);
        assert(rest =~= s.skip(end as int));
        let u = rest.skip(next - end);
        assert(u =~= s.skip(next as int));
        assert(first_word(rest) =~= s.subrange(next as int, last as int));
    }
    spells(&chars, start, end, "create") && spells(&chars, next, last, "database")
}

/// Requests. The type holds nothing.
#[derive(Debug)]
pub struct Request {}

impl Request {
    /// Takes a request apart. The text must have exactly three parts
    /// between `||`: user, database and command. The command gets a
    /// semicolon at its end. If the database is empty, the first two words
    /// of the command must be `create` and `database`.
    pub fn parse(input: &str) -> (r: Result<Command, RequestError>)
        ensures
            split_bars(input@).len() != 3 ==> r == Err::<Command, RequestError>(
                RequestError::BadRequest,
            ),
            split_bars(input@).len() == 3 ==> ({
                let parts = split_bars(input@);
                let cmd = parts[2] + seq![';'];
                if parts[1].len() == 0 && !creates_database(cmd) {
                    r == Err::<Command, RequestError>(RequestError::CreateDBBeforeCmd)
                } else {
                    r matches Ok(c) && c.username@ == parts[0] && c.dbname@ == parts[1] && c.cmd@
                        == cmd
                }
            }),
    {
        let chars = chars_of(input);
        let n = chars.len();
        let ghost s = chars@;
        proof {
            assert(s.skip(0) =~= s);
            lemma_first_bars(s);
        }
        let first = find_bars(&chars, 0);
        if first >= n {
            return Err(RequestError::BadRequest);
        }
        let ghost s1 = s.skip(first + 2);
        proof {
            lemma_first_bars(s1);
        }
        let second = find_bars(&chars, first + 2);
        if second >= n {
            assert(split_bars(s1) =~= seq![s1]);
            assert(split_bars(s).len() == 2);
            return Err(RequestError::BadRequest);
        }
        let ghost s2 = s.skip(second + 2);
        proof {
            assert(s1.skip(second - first) =~= s2);
            lemma_first_bars(s2);
        }
        let third = find_bars(&chars, second + 2);
        if third < n {
            proof {
                lemma_split_bars_nonempty(s2.skip(third - second));
                assert(split_bars(s2).len() >= 2);
                assert(split_bars(s1).len() >= 3);
                assert(split_bars(s).len() >= 4);
            }
            return Err(RequestError::BadRequest);
        }
        proof {
            assert(split_bars(s2) =~= seq![s2]);
            assert(split_bars(s1) =~= seq![s1.take(second - first - 2), s2]);
            assert(split_bars(s) =~= seq![s.take(first as int), s1.take(second - first - 2), s2]);
            assert(s.take(first as int) =~= s.subrange(0, first as int));
            assert(s1.take(second - first - 2) =~= s.subrange(first + 2, second as int));
            assert(s2 =~= s.subrange(second + 2, n as int));
            reveal_strlit(";");
            assert(";"@ =~= seq![';']);
        }
        let username = input.substring_char(0, first).to_owned();
        let dbname = input.substring_char(first + 2, second).to_owned();
        let cmd = input.substring_char(second + 2, n).to_owned().concat(";");
        if second == first + 2 && !begins_create_database(cmd.as_str()) {
            return Err(RequestError::CreateDBBeforeCmd);
        }
        Ok(Command { username, dbname, cmd })
    }

    /// Accepts every user name but the empty one.
    pub fn user_verify(name: &str) -> (r: Result<(), ()>)
        ensures
            r is Err <==> name@.len() == 0,
    {
        if name.unicode_len() == 0 {
            return Err(());
        }
        Ok(())
    }
}

} // verus!
