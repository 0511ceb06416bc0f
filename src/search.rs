//! Picking out the lines of a text that contain a query, and reading such a
//! request from the command line.
use vstd::prelude::*;

verus! {

/// `q` occurs in `text` starting at position `i`.
pub open spec fn occurs_at(text: Seq<char>, q: Seq<char>, i: int) -> bool {
    &&& 0 <= i
    &&& i + q.len() <= text.len()
    &&& text.subrange(i, i + q.len()) == q
}

pub open spec fn contains(text: Seq<char>, q: Seq<char>) -> bool {
    exists|i: int| occurs_at(text, q, i)
}

/// The pieces of `s` between '\n' characters; there is always at least one.
pub open spec fn pieces(s: Seq<char>) -> Seq<Seq<char>>
    decreases s.len(),
{
    if s.len() == 0 {
        seq![Seq::<char>::empty()]
    } else {
        let p = pieces(s.drop_last());
        if s.last() == '\n' {
            p.push(Seq::<char>::empty())
        } else {
            p.update(p.len() - 1, p.last().push(s.last()))
        }
    }
}

/// A line ended by "\r\n" loses its '\r'.
pub open spec fn strip_cr(l: Seq<char>) -> Seq<char> {
    if l.len() > 0 && l.last() == '\r' {
        l.drop_last()
    } else {
        l
    }
}

/// The lines of `s`: split at '\n', each line ended by "\r\n" without its
/// '\r', and no empty line after a final '\n'.
pub open spec fn lines(s: Seq<char>) -> Seq<Seq<char>> {
    let p = pieces(s);
    let ended = p.drop_last().map_values(|l: Seq<char>| strip_cr(l));
    if p.last().len() == 0 {
        ended
    } else {
        ended.push(p.last())
    }
}

/// The lines of `s` that contain `q`, in order.
pub open spec fn matching_lines(q: Seq<char>, s: Seq<char>) -> Seq<Seq<char>> {
    lines(s).filter(holds(q))
}

/// The test a line passes to be kept: it contains `q`.
pub open spec fn holds(q: Seq<char>) -> spec_fn(Seq<char>) -> bool {
    |l: Seq<char>| contains(l, q)
}

pub open spec fn views_of(v: Seq<&str>) -> Seq<Seq<char>> {
    v.map_values(|l: &str| l@)
}

/// The characters of `s`, one by one.
fn chars_of(s: &str) -> (r: Vec<char>)
    ensures
        r@ == s@,
{
    let n = s.unicode_len();
    let mut r: Vec<char> = Vec::new();
    let mut i: usize = 0;
    while i < n
        invariant
            i <= n,
            n == s@.len(),
            r@ == s@.take(i as int),
        decreases n - i,
    {
        r.push(s.get_char(i));
        i = i + 1;
        assert(r@ =~= s@.take(i as int));
    }
    assert(s@.take(n as int) =~= s@);
    r
}

fn occurs_at_exec(text: &Vec<char>, q: &Vec<char>, i: usize) -> (r: bool)
    requires
        i + q@.len() <= text@.len(),
    ensures
        r == occurs_at(text@, q@, i as int),
{
    let tl = text.len();
    let mut k: usize = 0;
    while k < q.len()
        invariant
            tl == text@.len(),
            k <= q@.len(),
            i + q@.len() <= text@.len(),
            text@.subrange(i as int, i + k) == q@.take(k as int),
        decreases q@.len() - k,
    {
        if text[i + k] != q[k] {
            assert(text@.subrange(i as int, i + q@.len())[k as int] != q@[k as int]);
            return false;
        }
        k = k + 1;
        assert(text@.subrange(i as int, i + k) =~= q@.take(k as int));
    }
    assert(q@.take(k as int) =~= q@);
    true
}

fn contains_exec(text: &Vec<char>, q: &Vec<char>) -> (r: bool)
    ensures
        r == contains(text@, q@),
{
    if q.len() > text.len() {
        return false;
    }
    let last = text.len() - q.len();
    let mut i: usize = 0;
    loop
        invariant
            i <= last,
            last == text@.len() - q@.len(),
            forall|j: int| 0 <= j < i ==> !occurs_at(text@, q@, j),
        decreases last - i,
    {
        if occurs_at_exec(text, q, i) {
            return true;
        }
        if i == last {
            return false;
        }
        i = i + 1;
    }
}

/// The pieces of a prefix that ends in '\n', and of one that does not.
proof fn lemma_pieces_push(s: Seq<char>, c: char)
    ensures
        c == '\n' ==> pieces(s.push(c)) == pieces(s).push(Seq::<char>::empty()),
        c != '\n' ==> pieces(s.push(c)) == pieces(s).update(
            pieces(s).len() - 1,
            pieces(s).last().push(c),
        ),
{
    assert(s.push(c).drop_last() =~= s);
}

proof fn lemma_filter_push(ls: Seq<Seq<char>>, l: Seq<char>, q: Seq<char>)
    ensures
        ls.push(l).filter(holds(q)) == if contains(l, q) {
            ls.filter(holds(q)).push(l)
        } else {
            ls.filter(holds(q))
        },
{
    reveal(Seq::filter);
    assert(ls.push(l).drop_last() =~= ls);
}

/// The lines of `contents` that contain `query`, in the order they come.
pub fn search<'a>(query: &str, contents: &'a str) -> (r: Vec<&'a str>)
    ensures
        views_of(r@) == matching_lines(query@, contents@),
{
    let q = chars_of(query);
    let text = chars_of(contents);
    let n = text.len();
    let mut r: Vec<&'a str> = Vec::new();
    let mut start: usize = 0;
    let mut i: usize = 0;
    let ghost mut done: Seq<Seq<char>> = Seq::empty();
    let ghost pred = holds(query@);
    assert(contents@.take(0) =~= Seq::<char>::empty());
    assert(done.push(contents@.subrange(0, 0)) =~= seq![Seq::<char>::empty()]);
    while i < n
        invariant
            start <= i <= n,
            n == contents@.len(),
            text@ == contents@,
            q@ == query@,
            pred == holds(query@),
            pieces(contents@.take(i as int)) == done.push(contents@.subrange(start as int, i as int)),
            views_of(r@) == done.map_values(|l: Seq<char>| strip_cr(l)).filter(pred),
        decreases n - i,
    {
        let c = text[i];
        proof {
            assert(contents@.take(i + 1) =~= contents@.take(i as int).push(c));
            lemma_pieces_push(contents@.take(i as int), c);
        }
        if c == '\n' {
            let end: usize = if i > start && text[i - 1] == '\r' {
                i - 1
            } else {
                i
            };
            let line = contents.substring_char(start, end);
            let ghost piece = contents@.subrange(start as int, i as int);
            assert(line@ == strip_cr(piece));
            let found = contains_exec(&chars_of(line), &q);
            proof {
                let old_done = done;
                done = done.push(piece);
                assert(done.map_values(|l: Seq<char>| strip_cr(l)) =~= old_done.map_values(
                    |l: Seq<char>| strip_cr(l),
                ).push(strip_cr(piece)));
                lemma_filter_push(old_done.map_values(|l: Seq<char>| strip_cr(l)), strip_cr(piece), query@);
            }
            if found {
                let ghost before = r@;
                r.push(line);
                assert(views_of(r@) =~= views_of(before).push(line@));
            }
            start = i + 1;
            assert(contents@.subrange(start as int, i + 1) =~= Seq::<char>::empty());
        } else {
            assert(contents@.subrange(start as int, i + 1) =~= contents@.subrange(
                start as int,
                i as int,
            ).push(c));
        }
        i = i + 1;
    }
    assert(contents@.take(n as int) =~= contents@);
    let ghost ended = done.map_values(|l: Seq<char>| strip_cr(l));
    if start < n {
        let line = contents.substring_char(start, n);
        if contains_exec(&chars_of(line), &q) {
            let ghost before = r@;
            r.push(line);
            assert(views_of(r@) =~= views_of(before).push(line@));
        }
        proof {
            lemma_filter_push(ended, line@, query@);
        }
    }
    assert(pieces(contents@).drop_last() =~= done);
    r
}

/// The lowercase form of a string.
pub uninterp spec fn lower_of(s: Seq<char>) -> Seq<char>;

/// Relies on `str::to_lowercase`: the lowercase form is a function of the
/// characters of the string alone.
#[verifier::external_body]
fn lowercase(s: &str) -> (r: String)
    ensures
        r@ == lower_of(s@),
{
    s.to_lowercase()
}

/// The lines of `content` that contain the lowercase form of `query`.
pub fn search_case_insensitive<'a>(query: &str, content: &'a str) -> (r: Vec<&'a str>)
    ensures
        views_of(r@) == matching_lines(lower_of(query@), content@),
{
    let lowered = lowercase(query);
    search(lowered.as_str(), content)
}

/// What a search is asked to do.
#[derive(Clone, Debug)]
pub struct Configure {
    pub query: String,
    pub file_path: String,
    pub ignore_case: bool,
}

/// Which command-line argument is missing.
#[derive(Clone, Copy, Debug, PartialEq, Eq, Structural)]
pub enum ConfigError {
    MissingQuery,
    MissingFilePath,
}

impl ConfigError {
    /// The message shown to the user.
    pub fn message(&self) -> (r: &'static str)
        ensures
            *self == ConfigError::MissingQuery ==> r@ == "Didn't get a query string!"@,
            *self == ConfigError::MissingFilePath ==> r@ == "Didn't get a file path!"@,
    {
        match self {
            ConfigError::MissingQuery => "Didn't get a query string!",
            ConfigError::MissingFilePath => "Didn't get a file path!",
        }
    }
}

impl Configure {
    /// Builds a search from the command line: `args[0]` is the program, then
    /// come the query and the file path; further arguments are ignored.
    pub fn build(args: &Vec<String>, ignore_case: bool) -> (r: Result<Configure, ConfigError>)
        ensures
            args@.len() < 2 ==> r == Err::<Configure, ConfigError>(ConfigError::MissingQuery),
            args@.len() == 2 ==> r == Err::<Configure, ConfigError>(ConfigError::MissingFilePath),
            args@.len() > 2 ==> (r matches Ok(c) && c.query@ == args@[1]@ && c.file_path@
                == args@[2]@ && c.ignore_case == ignore_case),
    {
        if args.len() < 2 {
            return Err(ConfigError::MissingQuery);
        }
        if args.len() < 3 {
            return Err(ConfigError::MissingFilePath);
        }
        let query = args[1].clone();
        let file_path = args[2].clone();
        Ok(Configure { query, file_path, ignore_case })
    }
}

} // verus!
