//! The store: where its two files live, and what goes into them when a mark
//! is added or the bookmarks are written.
use vstd::prelude::*;
use crate::entries::Entries;
use crate::text::{
    entries_of, lemma_field_end, lemma_parse_append_line, parse_entries, parse_text, push_char,
    record, render, render_entries, segments, strip_cr,
};

verus! {

/// The directory of the store files, under the user's home directory.
pub const DATA_PATH: &'static str = ".cache/teleport/";

/// The file of numbered marks.
pub const MARKED: &'static str = "marked";

/// The file of named bookmarks.
pub const BOOKMARKED: &'static str = "bookmarked";

/// The message of a path argument that does not name a directory.
pub const NOT_A_DIRECTORY: &'static str = "Path arg must be a directory";

/// The character of a decimal digit.
pub open spec fn digit(d: nat) -> char {
    if d == 0 { '0' }
    else if d == 1 { '1' }
    else if d == 2 { '2' }
    else if d == 3 { '3' }
    else if d == 4 { '4' }
    else if d == 5 { '5' }
    else if d == 6 { '6' }
    else if d == 7 { '7' }
    else if d == 8 { '8' }
    else { '9' }
}

/// A number written in decimal, without leading zeros.
pub open spec fn decimal(n: nat) -> Seq<char>
    decreases n,
{
    if n < 10 {
        seq![digit(n)]
    } else {
        decimal(n / 10).push(digit(n % 10))
    }
}

fn digit_char(d: usize) -> (c: char)
    requires
        d < 10,
    ensures
        c == digit(d as nat),
{
    if d == 0 { '0' }
    else if d == 1 { '1' }
    else if d == 2 { '2' }
    else if d == 3 { '3' }
    else if d == 4 { '4' }
    else if d == 5 { '5' }
    else if d == 6 { '6' }
    else if d == 7 { '7' }
    else if d == 8 { '8' }
    else { '9' }
}

/// Writes a number in decimal.
pub fn decimal_string(n: usize) -> (r: String)
    ensures
        r@ == decimal(n as nat),
    decreases n,
{
    if n < 10 {
        let mut s = String::new();
        push_char(&mut s, digit_char(n));
        proof { assert(s@ =~= seq![digit(n as nat)]); }
        s
    } else {
        let mut s = decimal_string(n / 10);
        push_char(&mut s, digit_char(n % 10));
        s
    }
}

proof fn lemma_digit_injective(x: nat, y: nat)
    requires
        x < 10,
        y < 10,
        digit(x) == digit(y),
    ensures
        x == y,
{
}

/// Decimal numbers hold only digits, and two numbers are written alike only
/// if they are equal.
pub proof fn lemma_decimal(a: nat, b: nat)
    ensures
        decimal(a).len() >= 1,
        forall|i: int| 0 <= i < decimal(a).len() ==> #[trigger] decimal(a)[i] != ',' && decimal(a)[i] != '\n'
            && decimal(a)[i] != '\r',
        decimal(a) == decimal(b) ==> a == b,
    decreases a + b,
{
    if a >= 10 {
        lemma_decimal(a / 10, b);
        assert forall|i: int| 0 <= i < decimal(a).len() implies #[trigger] decimal(a)[i] != ',' && decimal(a)[i] != '\n'
            && decimal(a)[i] != '\r' by {
            if i < decimal(a).len() - 1 {
                assert(decimal(a)[i] == decimal(a / 10)[i]);
            }
        }
    }
    if decimal(a) == decimal(b) {
        if a < 10 && b < 10 {
            assert(decimal(a)[0] == digit(a));
            assert(decimal(b)[0] == digit(b));
            lemma_digit_injective(a, b);
        } else if a < 10 {
            lemma_decimal(b / 10, 0);
            assert(decimal(b).len() == decimal(b / 10).len() + 1);
        } else if b < 10 {
            lemma_decimal(a / 10, 0);
            assert(decimal(a).len() == decimal(a / 10).len() + 1);
        } else {
            assert(decimal(a).drop_last() =~= decimal(a / 10));
            assert(decimal(b).drop_last() =~= decimal(b / 10));
            lemma_decimal(a / 10, b / 10);
            assert(decimal(a).last() == digit(a % 10));
            assert(decimal(b).last() == digit(b % 10));
            lemma_digit_injective(a % 10, b % 10);
            assert(a == b) by (nonlinear_arith)
                requires
                    a / 10 == b / 10,
                    a % 10 == b % 10,
            {}
        }
    }
}

/// A path that starts at the root.
pub open spec fn is_absolute(p: Seq<char>) -> bool {
    p.len() > 0 && p[0] == '/'
}

/// `p` pushed onto `base` as a path: an absolute `p` replaces `base`, a
/// relative one is added after a separator.
pub open spec fn join_path(base: Seq<char>, p: Seq<char>) -> Seq<char> {
    if is_absolute(p) {
        p
    } else if base.len() == 0 || base.last() == '/' {
        base + p
    } else {
        base + seq!['/'] + p
    }
}

/// Pushes `p` onto `base` as a path.
pub fn join_path_str(base: &str, p: &str) -> (r: String)
    ensures
        r@ == join_path(base@, p@),
{
    let nb = base.unicode_len();
    let np = p.unicode_len();
    if np > 0 && p.get_char(0) == '/' {
        return p.to_owned();
    }
    let mut out = base.to_owned();
    if nb > 0 && base.get_char(nb - 1) != '/' {
        push_char(&mut out, '/');
    }
    out.append(p);
    out
}

/// The directory that a mark or bookmark records: the working directory when
/// no path is given, else the path, taken from the working directory when it
/// is relative. `None` where a path is given that names no directory.
pub open spec fn resolved_dir(cwd: Seq<char>, path: Option<Seq<char>>, is_dir: bool) -> Option<Seq<char>> {
    match path {
        None => Some(cwd),
        Some(p) => if is_dir { Some(join_path(cwd, p)) } else { None },
    }
}

/// The text of an optional path argument.
pub open spec fn path_view(path: Option<&str>) -> Option<Seq<char>> {
    match path {
        Some(p) => Some(p@),
        None => None,
    }
}

/// Resolves the directory to record. `is_dir` tells whether `path`, if given,
/// names a directory.
pub fn resolve_dir(cwd: &str, path: Option<&str>, is_dir: bool) -> (r: Result<String, String>)
    ensures
        match r {
            Ok(d) => resolved_dir(cwd@, path_view(path), is_dir) == Some(d@),
            Err(e) => resolved_dir(cwd@, path_view(path), is_dir) is None && e@ == NOT_A_DIRECTORY@,
        },
{
    match path {
        None => Ok(cwd.to_owned()),
        Some(p) => {
            if !is_dir {
                Err(NOT_A_DIRECTORY.to_owned())
            } else {
                Ok(join_path_str(cwd, p))
            }
        },
    }
}

/// A mark as the marks file holds it, without the newline.
pub open spec fn mark_text(dir: Seq<char>, key: nat) -> Seq<char> {
    decimal(key) + seq![','] + dir
}

/// Writes a mark as the marks file holds it, without the newline.
pub fn mark_entry(dir: &str, key: usize) -> (r: String)
    ensures
        r@ == mark_text(dir@, key as nat),
{
    let mut out = decimal_string(key);
    push_char(&mut out, ',');
    out.append(dir);
    out
}

/// The key that the next mark gets: the number of marks the file holds.
pub open spec fn next_key(marks: Seq<char>) -> nat {
    parse_text(marks).len()
}

/// The text of the marks file after a mark of `dir` is added.
pub open spec fn marks_after(marks: Seq<char>, dir: Seq<char>) -> Seq<char> {
    marks + mark_text(dir, next_key(marks)) + seq!['\n']
}

/// The text of the marks file after marks of `dirs` are added in order.
pub open spec fn marks_after_all(marks: Seq<char>, dirs: Seq<Seq<char>>) -> Seq<char>
    decreases dirs.len(),
{
    if dirs.len() == 0 {
        marks
    } else {
        marks_after(marks_after_all(marks, dirs.drop_last()), dirs.last())
    }
}

/// A path that fits on one line.
pub open spec fn one_line(d: Seq<char>) -> bool {
    forall|i: int| 0 <= i < d.len() ==> d[i] != '\n'
}

proof fn lemma_record_of_mark(n: nat, d: Seq<char>)
    requires
        one_line(d),
    ensures
        record(mark_text(d, n)) matches Some(kv) && kv.0 == decimal(n),
        one_line(mark_text(d, n)),
{
    lemma_decimal(n, n);
    let dec = decimal(n);
    let l = mark_text(d, n);
    let s = strip_cr(l);
    assert(l[dec.len() as int] == ',');
    assert(s.len() > dec.len());
    assert forall|j: int| 0 <= j < dec.len() implies s[j] != ',' by {
        assert(s[j] == dec[j]);
    }
    lemma_field_end(s, 0, dec.len() as int);
    assert(s.subrange(0, dec.len() as int) =~= dec);
    assert forall|i: int| 0 <= i < l.len() implies l[i] != '\n' by {
        if i < dec.len() {
        } else if i > dec.len() {
            assert(l[i] == d[i - dec.len() - 1]);
        }
    }
}

proof fn lemma_marks_numbered(dirs: Seq<Seq<char>>)
    requires
        forall|i: int| 0 <= i < dirs.len() ==> one_line(#[trigger] dirs[i]),
    ensures
        ({
            let t = marks_after_all(Seq::empty(), dirs);
            &&& t.len() == 0 || t.last() == '\n'
            &&& parse_text(t).dom().finite()
            &&& parse_text(t).len() == dirs.len()
            &&& forall|k: Seq<char>| #[trigger] parse_text(t).contains_key(k) <==> exists|j: nat| j < dirs.len() && k == decimal(j)
        }),
    decreases dirs.len(),
{
    let t = marks_after_all(Seq::empty(), dirs);
    if dirs.len() == 0 {
        let one = seq![Seq::<char>::empty()];
        assert(segments(Seq::<char>::empty()) =~= one);
        assert(record(Seq::<char>::empty()) is None);
        assert(one.last() == Seq::<char>::empty());
        assert(one.drop_last() =~= Seq::<Seq<char>>::empty());
        assert(entries_of(one) == entries_of(one.drop_last()));
        assert(parse_text(t) =~= Map::<Seq<char>, Seq<char>>::empty());
    } else {
        let q = dirs.drop_last();
        let d = dirs.last();
        assert(one_line(dirs[dirs.len() - 1]));
        lemma_marks_numbered(q);
        let t0 = marks_after_all(Seq::empty(), q);
        let n = next_key(t0);
        assert(n == q.len());
        lemma_record_of_mark(n, d);
        lemma_parse_append_line(t0, mark_text(d, n));
        assert(t == t0 + mark_text(d, n) + seq!['\n']);
        let kv = record(mark_text(d, n))->Some_0;
        assert(parse_text(t) == parse_text(t0).insert(kv.0, kv.1));
        assert(!parse_text(t0).contains_key(decimal(n))) by {
            if parse_text(t0).contains_key(decimal(n)) {
                let j = choose|j: nat| j < q.len() && decimal(n) == decimal(j);
                lemma_decimal(n, j);
            }
        }
        assert forall|k: Seq<char>| #[trigger] parse_text(t).contains_key(k) <==> exists|j: nat| j < dirs.len() && k == decimal(j) by {
            if parse_text(t).contains_key(k) && k != decimal(n) {
                let j = choose|j: nat| j < q.len() && k == decimal(j);
                assert(j < dirs.len() && k == decimal(j));
            }
            if exists|j: nat| j < dirs.len() && k == decimal(j) {
                let j = choose|j: nat| j < dirs.len() && k == decimal(j);
                if j < q.len() {
                    assert(parse_text(t0).contains_key(k));
                }
            }
        }
        assert(parse_text(t).dom() == parse_text(t0).dom().insert(decimal(n)));
    }
}

/// Marks added one after another to an empty marks file, with none taken
/// out, get the keys 0, 1, 2, ... in the order they were added.
pub proof fn lemma_marks_keys_in_order(dirs: Seq<Seq<char>>)
    requires
        forall|i: int| 0 <= i < dirs.len() ==> one_line(#[trigger] dirs[i]),
    ensures
        forall|i: int| 0 <= i < dirs.len() ==> next_key(#[trigger] marks_after_all(Seq::empty(), dirs.take(i))) == i,
{
    assert forall|i: int| 0 <= i < dirs.len() implies next_key(#[trigger] marks_after_all(Seq::empty(), dirs.take(i))) == i by {
        let p = dirs.take(i);
        assert forall|j: int| 0 <= j < p.len() implies one_line(#[trigger] p[j]) by {
            assert(p[j] == dirs[j]);
        }
        lemma_marks_numbered(p);
    }
}

/// Once the marks are cleared, the marks file is empty and the next mark gets
/// the key 0.
pub proof fn lemma_cleared_marks_restart_at_zero()
    ensures
        next_key(Seq::empty()) == 0,
{
    lemma_marks_numbered(Seq::empty());
    assert(marks_after_all(Seq::empty(), Seq::<Seq<char>>::empty()) == Seq::<char>::empty());
}

/// Works out a new mark from the marks file's text: its key, and the line to
/// append to the file. Fails where a path is given that names no directory.
pub fn new_mark(marks: &str, cwd: &str, path: Option<&str>, is_dir: bool) -> (r: Result<(usize, String), String>)
    ensures
        match r {
            Ok((key, line)) => {
                &&& key == next_key(marks@)
                &&& resolved_dir(cwd@, path_view(path), is_dir) matches Some(d)
                &&& line@ == mark_text(d, key as nat) + seq!['\n']
            },
            Err(e) => resolved_dir(cwd@, path_view(path), is_dir) is None && e@ == NOT_A_DIRECTORY@,
        },
{
    let dir = resolve_dir(cwd, path, is_dir)?;
    let key = parse_entries(marks).len();
    let mut line = mark_entry(dir.as_str(), key);
    push_char(&mut line, '\n');
    Ok((key, line))
}

/// The text the bookmarks file is rewritten with: every bookmark, one line
/// each, in key order.
pub fn bookmarks_file_text(bookmarks: &Entries) -> (r: String)
    ensures
        r@ == render(bookmarks.pairs()),
{
    render_entries(bookmarks)
}

/// Relies on `home::home_dir`: the user's home directory, when one can be
/// found. What it is depends on the environment.
#[verifier::external_body]
fn home_dir() -> (r: Option<String>) {
    home::home_dir().map(|p| p.to_string_lossy().into_owned())
}

/// Where the store file `file` lies under the home directory `home`.
pub open spec fn data_file_path(home: Seq<char>, file: Seq<char>) -> Seq<char> {
    join_path(join_path(home, DATA_PATH@), file)
}

/// Where the store file `file` lies under the home directory `home`.
pub fn file_path_in(home: &str, file: &str) -> (r: String)
    ensures
        r@ == data_file_path(home@, file@),
{
    let data = join_path_str(home, DATA_PATH);
    join_path_str(data.as_str(), file)
}

/// Where the store file `file` lies under the user's home directory; `None`
/// where no home directory can be found.
pub fn get_marks_file_path(file: &str) -> (r: Option<String>)
    ensures
        r matches Some(p) ==> exists|h: Seq<char>| p@ == data_file_path(h, file@),
{
    match home_dir() {
        Some(h) => Some(file_path_in(h.as_str(), file)),
        None => None,
    }
}

/// The store on disk: the paths of its marks file and its bookmarks file.
pub struct Repository {
    pub marked: String,
    pub bookmarked: String,
}

impl Repository {
    /// The store under the home directory `home`.
    pub fn in_home(home: &str) -> (r: Repository)
        ensures
            r.marked@ == data_file_path(home@, MARKED@),
            r.bookmarked@ == data_file_path(home@, BOOKMARKED@),
    {
        Repository { marked: file_path_in(home, MARKED), bookmarked: file_path_in(home, BOOKMARKED) }
    }

    /// The store under the user's home directory; `None` where no home
    /// directory can be found.
    pub fn new() -> (r: Option<Repository>)
        ensures
            r matches Some(repo) ==> exists|h: Seq<char>| repo.marked@ == data_file_path(h, MARKED@)
                && repo.bookmarked@ == data_file_path(h, BOOKMARKED@),
    {
        match home_dir() {
            Some(h) => Some(Repository::in_home(h.as_str())),
            None => None,
        }
    }
}

} // verus!
