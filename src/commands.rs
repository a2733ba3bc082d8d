//! The commands: which one the arguments ask for, what it does to the store,
//! and the text it answers with.
use vstd::prelude::*;
use crate::entries::Entries;
use crate::store::{decimal, decimal_string, path_view, resolve_dir, resolved_dir, NOT_A_DIRECTORY};
use crate::text::push_char;

verus! {

/// The usage text.
pub const HELP: &'static str = "\nUsage: [ARGS] [FLAGS]\n\n[dir]            Mark directory uses current directory if no dir argument\n[dir] -b [key]   Mark as bookmark with key\n-ls              List marked directories\n-h, --help       Show usage\n-g [key]         Get marked directory\n-rm [key]        Remove bookmark with key\n-clr, --clear    Remove all marks\n";

/// The message of a get command without a key.
pub const GET_NEEDS_KEY: &'static str = "Get command requires key argument\n";

/// The message of a command given the wrong number of arguments.
pub const WRONG_ARGUMENTS: &'static str = "Wrong number of arguments";

/// The width that keys are padded to in a listing.
pub const KEY_WIDTH: usize = 5;

/// The store and the surroundings that the commands run against: the marks,
/// the bookmarks, the working directory, and which paths name directories.
pub trait MarksRepository {
    /// All marks.
    fn get_marks(&self) -> Entries;

    /// All bookmarks.
    fn get_bookmarks(&self) -> Entries;

    /// Adds a mark of `path`, or of the working directory, and hands back
    /// its key.
    fn add_mark(&self, path: Option<String>) -> Result<usize, String>;

    /// Replaces all bookmarks with `bookmarks`.
    fn store_bookmarks(&self, bookmarks: Entries);

    /// Takes out all marks.
    fn clear_marks(&self);

    /// The working directory.
    fn current_dir(&self) -> String;

    /// Whether `path` names a directory.
    fn is_dir(&self, path: &str) -> bool;
}

/// A key padded with spaces to the listing's width.
pub open spec fn padded(k: Seq<char>) -> Seq<char> {
    if k.len() < KEY_WIDTH {
        k + Seq::new((KEY_WIDTH - k.len()) as nat, |i: int| ' ')
    } else {
        k
    }
}

/// One entry as a row of a listing.
pub open spec fn row(k: Seq<char>, v: Seq<char>) -> Seq<char> {
    padded(k) + seq![' ', ':', ' '] + v + seq!['\n']
}

/// The rows of the entries, in their order.
pub open spec fn rows(ps: Seq<(Seq<char>, Seq<char>)>) -> Seq<char>
    decreases ps.len(),
{
    if ps.len() == 0 {
        Seq::empty()
    } else {
        rows(ps.drop_last()) + row(ps.last().0, ps.last().1)
    }
}

/// The listing of marks and bookmarks.
pub open spec fn list_text(marks: Seq<(Seq<char>, Seq<char>)>, bookmarks: Seq<(Seq<char>, Seq<char>)>) -> Seq<char> {
    "\n# Marks\n\n"@ + rows(marks) + "\n"@ + "# Bookmarks\n\n"@ + rows(bookmarks) + "\n"@
}

fn pad_key(k: &String) -> (r: String)
    ensures
        r@ == padded(k@),
{
    let n = k.as_str().unicode_len();
    let mut out = k.clone();
    if n < KEY_WIDTH {
        let mut i: usize = n;
        while i < KEY_WIDTH
            invariant
                n == k@.len(),
                n <= i <= KEY_WIDTH,
                out@ =~= k@ + Seq::new((i - n) as nat, |j: int| ' '),
            decreases KEY_WIDTH - i,
        {
            push_char(&mut out, ' ');
            i = i + 1;
        }
    }
    out
}

fn append_rows(out: &mut String, e: &Entries)
    ensures
        final(out)@ == old(out)@ + rows(e.pairs()),
{
    let n = e.len();
    let mut i: usize = 0;
    proof {
        assert(e.pairs().take(0) =~= Seq::<(Seq<char>, Seq<char>)>::empty());
        assert(out@ + rows(e.pairs().take(0)) =~= out@);
    }
    while i < n
        invariant
            n == e.pairs().len(),
            i <= n,
            out@ == old(out)@ + rows(e.pairs().take(i as int)),
        decreases n - i,
    {
        let k = pad_key(e.key_at(i));
        out.append(k.as_str());
        out.append(" : ");
        out.append(e.value_at(i).as_str());
        out.append("\n");
        proof {
            reveal_strlit(" : ");
            reveal_strlit("\n");
            let ps = e.pairs().take(i + 1);
            assert(ps.drop_last() =~= e.pairs().take(i as int));
            assert(out@ =~= old(out)@ + rows(ps));
        }
        i = i + 1;
    }
    proof {
        assert(e.pairs().take(n as int) =~= e.pairs());
    }
}

/// Lists the marks and then the bookmarks, each in key order, one row per
/// entry.
pub fn render_list(marks: &Entries, bookmarks: &Entries) -> (r: String)
    ensures
        r@ == list_text(marks.pairs(), bookmarks.pairs()),
{
    let mut out = String::new();
    out.append("\n# Marks\n\n");
    append_rows(&mut out, marks);
    out.append("\n");
    out.append("# Bookmarks\n\n");
    append_rows(&mut out, bookmarks);
    out.append("\n");
    proof {
        assert(out@ =~= list_text(marks.pairs(), bookmarks.pairs()));
    }
    out
}

/// Lists the store's marks and bookmarks.
pub fn ls<R: MarksRepository>(repo: R) -> (r: String)
    ensures
        exists|m: Entries, b: Entries| r@ == list_text(m.pairs(), b.pairs()),
{
    let marks = repo.get_marks();
    let bookmarks = repo.get_bookmarks();
    render_list(&marks, &bookmarks)
}

/// What a get command answers for `key`: the bookmark of that name if there
/// is one, else the mark of that key, else nothing.
pub open spec fn lookup(key: Seq<char>, marks: Map<Seq<char>, Seq<char>>, bookmarks: Map<Seq<char>, Seq<char>>) -> Seq<char> {
    if bookmarks.contains_key(key) {
        bookmarks[key]
    } else if marks.contains_key(key) {
        marks[key]
    } else {
        Seq::empty()
    }
}

/// A bookmark named `key` is what a get command answers, whether or not a
/// mark holds the same key.
pub proof fn lemma_bookmark_before_mark(key: Seq<char>, marks: Map<Seq<char>, Seq<char>>, bookmarks: Map<Seq<char>, Seq<char>>)
    requires
        bookmarks.contains_key(key),
    ensures
        lookup(key, marks, bookmarks) == bookmarks[key],
{
}

/// Looks `key` up among the bookmarks first, then among the marks.
pub fn lookup_value(key: &String, marks: &Entries, bookmarks: &Entries) -> (r: String)
    ensures
        r@ == lookup(key@, marks@, bookmarks@),
{
    match bookmarks.get(key) {
        Some(v) => v.clone(),
        None => match marks.get(key) {
            Some(v) => v.clone(),
            None => String::new(),
        },
    }
}

/// Answers a get command.
pub fn get<R: MarksRepository>(arg: Option<&String>, repo: R) -> (r: Result<String, String>)
    ensures
        match arg {
            None => r matches Err(e) && e@ == GET_NEEDS_KEY@,
            Some(k) => r matches Ok(s) && exists|m: Entries, b: Entries| s@ == lookup(k@, m@, b@),
        },
{
    match arg {
        None => Err(GET_NEEDS_KEY.to_owned()),
        Some(key) => {
            let marks = repo.get_marks();
            let bookmarks = repo.get_bookmarks();
            Ok(lookup_value(key, &marks, &bookmarks))
        },
    }
}

/// The answer to a mark that got the key `key`.
pub open spec fn marked_message(key: nat) -> Seq<char> {
    "Marked as "@ + decimal(key) + "\n"@
}

/// Writes the answer to a mark that got the key `key`.
pub fn marked_text(key: usize) -> (r: String)
    ensures
        r@ == marked_message(key as nat),
{
    let mut out = "Marked as ".to_owned();
    out.append(decimal_string(key).as_str());
    out.append("\n");
    out
}

/// Marks `arg`, or the working directory.
pub fn mark_dir<R: MarksRepository>(arg: Option<&String>, repo: R) -> (r: Result<String, String>)
    ensures
        r matches Ok(s) ==> exists|k: nat| s@ == marked_message(k),
{
    let path = match arg {
        Some(p) => Some(p.clone()),
        None => None,
    };
    match repo.add_mark(path) {
        Ok(key) => Ok(marked_text(key)),
        Err(e) => Err(e),
    }
}

/// The answer to a bookmark made under `key`.
pub open spec fn bookmarked_message(key: Seq<char>) -> Seq<char> {
    "Bookmarked as "@ + key + "\n"@
}

/// Makes a bookmark under `key` of `path`, or of the working directory `cwd`;
/// `is_dir` tells whether `path`, if given, names a directory. Fails, with the
/// bookmarks as they were, where it does not.
pub fn bookmark_into(bookmarks: &mut Entries, key: &String, cwd: &str, path: Option<&str>, is_dir: bool) -> (r: Result<String, String>)
    ensures
        match resolved_dir(cwd@, path_view(path), is_dir) {
            Some(d) => final(bookmarks)@ == old(bookmarks)@.insert(key@, d)
                && (r matches Ok(s) && s@ == bookmarked_message(key@)),
            None => final(bookmarks)@ == old(bookmarks)@ && (r matches Err(e) && e@ == NOT_A_DIRECTORY@),
        },
{
    let dir = resolve_dir(cwd, path, is_dir)?;
    bookmarks.insert(key.clone(), dir);
    let mut out = "Bookmarked as ".to_owned();
    out.append(key.as_str());
    out.append("\n");
    Ok(out)
}

/// What a bookmark command under `key` may answer: it succeeds where no path
/// is given, and otherwise fails only where the path names no directory.
pub open spec fn bookmark_answer(key: Seq<char>, has_path: bool, r: Result<String, String>) -> bool {
    &&& r matches Ok(s) ==> s@ == bookmarked_message(key)
    &&& r matches Err(e) ==> has_path && e@ == NOT_A_DIRECTORY@
    &&& !has_path ==> r is Ok
}

/// Answers a bookmark command: bookmarks `path`, or the working directory,
/// under `key`.
pub fn bookmark<R: MarksRepository>(key: Option<&String>, path: Option<&String>, repo: R) -> (r: Result<String, String>)
    ensures
        match key {
            None => r matches Err(e) && e@ == "bookmark needs a key argument"@,
            Some(k) => bookmark_answer(k@, path is Some, r),
        },
{
    let key = match key {
        None => return Err("bookmark needs a key argument".to_owned()),
        Some(k) => k,
    };
    let cwd = repo.current_dir();
    let is_dir = match path {
        Some(p) => repo.is_dir(p.as_str()),
        None => true,
    };
    let p = match path {
        Some(p) => Some(p.as_str()),
        None => None,
    };
    match resolve_dir(cwd.as_str(), p, is_dir) {
        Err(e) => Err(e),
        Ok(_) => {
            let mut bookmarks = repo.get_bookmarks();
            let r = bookmark_into(&mut bookmarks, key, cwd.as_str(), p, is_dir);
            repo.store_bookmarks(bookmarks);
            r
        },
    }
}

/// The answer to a bookmark taken out under `key`.
pub open spec fn removed_message(key: Seq<char>) -> Seq<char> {
    "Removed "@ + key + "\n"@
}

/// The answer to a bookmark that is not there.
pub open spec fn not_found_message(key: Seq<char>) -> Seq<char> {
    "No bookmark named "@ + key + " found"@
}

/// Takes the bookmark `key` out. Where there is none, the bookmarks stay as
/// they were and the answer is an error; else there is one bookmark fewer.
pub fn remove_from(bookmarks: &mut Entries, key: &String) -> (r: Result<String, String>)
    ensures
        final(bookmarks)@ == old(bookmarks)@.remove(key@),
        old(bookmarks)@.contains_key(key@) ==> final(bookmarks)@.len() + 1 == old(bookmarks)@.len()
            && (r matches Ok(s) && s@ == removed_message(key@)),
        !old(bookmarks)@.contains_key(key@) ==> final(bookmarks)@ == old(bookmarks)@
            && (r matches Err(e) && e@ == not_found_message(key@)),
{
    match bookmarks.remove(key) {
        Some(_) => {
            let mut out = "Removed ".to_owned();
            out.append(key.as_str());
            out.append("\n");
            Ok(out)
        },
        None => {
            let mut out = "No bookmark named ".to_owned();
            out.append(key.as_str());
            out.append(" found");
            Err(out)
        },
    }
}

/// What a remove command under `key` answers, for one store or another.
pub open spec fn remove_answer(key: Seq<char>, r: Result<String, String>) -> bool {
    ||| r matches Ok(s) && s@ == removed_message(key)
    ||| r matches Err(e) && e@ == not_found_message(key)
}

/// Answers a remove command: takes the bookmark `key` out and writes the
/// bookmarks back.
pub fn remove_bookmark<R: MarksRepository>(key: Option<&String>, repo: R) -> (r: Result<String, String>)
    ensures
        match key {
            None => r matches Err(e) && e@ == "remove requires key argument"@,
            Some(k) => remove_answer(k@, r),
        },
{
    let key = match key {
        None => return Err("remove requires key argument".to_owned()),
        Some(k) => k,
    };
    let mut bookmarks = repo.get_bookmarks();
    let r = remove_from(&mut bookmarks, key);
    repo.store_bookmarks(bookmarks);
    r
}

/// The text of each argument.
pub open spec fn arg_views(v: Seq<String>) -> Seq<Seq<char>> {
    v.map_values(|s: String| s@)
}

/// An error whose message is `msg`.
pub open spec fn fails_with(r: Result<String, String>, msg: Seq<char>) -> bool {
    r matches Err(e) && e@ == msg
}

/// What the command `flag` with the arguments `args` answers, for one store
/// or another.
pub open spec fn flag_answer(flag: Seq<char>, args: Seq<Seq<char>>, r: Result<String, String>) -> bool {
    if flag == "-ls"@ {
        r matches Ok(s) && exists|m: Entries, b: Entries| s@ == list_text(m.pairs(), b.pairs())
    } else if flag == "-h"@ || flag == "--help"@ {
        r matches Ok(s) && s@ == HELP@
    } else if flag == "-g"@ {
        if args.len() == 1 {
            r matches Ok(s) && exists|m: Entries, b: Entries| s@ == lookup(args[0], m@, b@)
        } else if args.len() == 0 {
            fails_with(r, GET_NEEDS_KEY@)
        } else {
            fails_with(r, "Too many arguments"@)
        }
    } else if flag == "-b"@ {
        if args.len() == 2 {
            bookmark_answer(args[1], true, r)
        } else if args.len() == 1 {
            bookmark_answer(args[0], false, r)
        } else {
            fails_with(r, WRONG_ARGUMENTS@)
        }
    } else if flag == "-rm"@ {
        if args.len() == 1 {
            remove_answer(args[0], r)
        } else {
            fails_with(r, WRONG_ARGUMENTS@)
        }
    } else if flag == "-clr"@ || flag == "--clear"@ {
        if args.len() == 0 {
            r matches Ok(s) && s@ == "Cleared marks\n"@
        } else {
            fails_with(r, WRONG_ARGUMENTS@)
        }
    } else {
        fails_with(r, "Unkown command for mark command"@)
    }
}

/// What the arguments `args` and the flags `flags` answer, for one store or
/// another: at most one flag; with none, a mark of the one argument or of the
/// working directory.
pub open spec fn command_answer(args: Seq<Seq<char>>, flags: Seq<Seq<char>>, r: Result<String, String>) -> bool {
    if flags.len() > 1 {
        fails_with(r, "Cannot mix flags"@)
    } else if flags.len() == 0 {
        if args.len() <= 1 {
            r matches Ok(s) ==> exists|k: nat| s@ == marked_message(k)
        } else {
            fails_with(r, "Too many argurments"@)
        }
    } else {
        flag_answer(flags[0], args, r)
    }
}

/// Runs the command that `flags` names on the arguments `args`.
pub fn mark<R: MarksRepository>(args: &Vec<String>, flags: &Vec<String>, repo: R) -> (r: Result<String, String>)
    ensures
        command_answer(arg_views(args@), arg_views(flags@), r),
{
    if flags.len() > 1 {
        return Err("Cannot mix flags".to_owned());
    }
    if flags.len() == 0 {
        if args.len() == 0 {
            return mark_dir(None, repo);
        } else if args.len() == 1 {
            return mark_dir(Some(&args[0]), repo);
        } else {
            return Err("Too many argurments".to_owned());
        }
    }
    let flag = &flags[0];
    let ghost a = arg_views(args@);
    proof {
        assert(arg_views(flags@)[0] == flag@);
        if args.len() > 0 {
            assert(a[0] == args@[0]@);
        }
        if args.len() > 1 {
            assert(a[1] == args@[1]@);
        }
    }
    if *flag == "-ls".to_owned() {
        return Ok(ls(repo));
    }
    if *flag == "-h".to_owned() || *flag == "--help".to_owned() {
        return Ok(HELP.to_owned());
    }
    if *flag == "-g".to_owned() {
        if args.len() == 1 {
            return get(Some(&args[0]), repo);
        } else if args.len() == 0 {
            return Err(GET_NEEDS_KEY.to_owned());
        } else {
            return Err("Too many arguments".to_owned());
        }
    }
    if *flag == "-b".to_owned() {
        if args.len() == 2 {
            return bookmark(Some(&args[1]), Some(&args[0]), repo);
        } else if args.len() == 1 {
            return bookmark(Some(&args[0]), None, repo);
        } else {
            return Err(WRONG_ARGUMENTS.to_owned());
        }
    }
    if *flag == "-rm".to_owned() {
        if args.len() != 1 {
            return Err(WRONG_ARGUMENTS.to_owned());
        } else {
            return remove_bookmark(Some(&args[0]), repo);
        }
    }
    if *flag == "-clr".to_owned() || *flag == "--clear".to_owned() {
        if args.len() != 0 {
            return Err(WRONG_ARGUMENTS.to_owned());
        } else {
            repo.clear_marks();
            return Ok("Cleared marks\n".to_owned());
        }
    }
    Err("Unkown command for mark command".to_owned())
}

/// An argument that begins with a dash is a flag.
pub open spec fn is_flag(a: Seq<char>) -> bool {
    a.len() > 0 && a[0] == '-'
}

/// The flags among the arguments, in their order.
pub open spec fn flags_of(args: Seq<Seq<char>>) -> Seq<Seq<char>>
    decreases args.len(),
{
    if args.len() == 0 {
        Seq::empty()
    } else if is_flag(args.last()) {
        flags_of(args.drop_last()).push(args.last())
    } else {
        flags_of(args.drop_last())
    }
}

/// The arguments that are not flags, in their order.
pub open spec fn positionals_of(args: Seq<Seq<char>>) -> Seq<Seq<char>>
    decreases args.len(),
{
    if args.len() == 0 {
        Seq::empty()
    } else if is_flag(args.last()) {
        positionals_of(args.drop_last())
    } else {
        positionals_of(args.drop_last()).push(args.last())
    }
}

fn starts_with_dash(a: &String) -> (r: bool)
    ensures
        r == is_flag(a@),
{
    let s = a.as_str();
    s.unicode_len() > 0 && s.get_char(0) == '-'
}

/// Runs a command line: the program's name, then arguments and flags in any
/// order. The first argument that is not a flag is the program's name.
pub fn run_cmd<R: MarksRepository>(args: Vec<String>, repo: R) -> (r: Result<String, String>)
    requires
        positionals_of(arg_views(args@)).len() >= 1,
    ensures
        command_answer(positionals_of(arg_views(args@)).drop_first(), flags_of(arg_views(args@)), r),
{
    let ghost a = arg_views(args@);
    let mut flags: Vec<String> = Vec::new();
    let mut positionals: Vec<String> = Vec::new();
    let mut i: usize = 0;
    proof {
        assert(a.take(0) =~= Seq::<Seq<char>>::empty());
        assert(arg_views(flags@) =~= Seq::<Seq<char>>::empty());
        assert(arg_views(positionals@) =~= Seq::<Seq<char>>::empty());
    }
    while i < args.len()
        invariant
            a == arg_views(args@),
            i <= args.len(),
            arg_views(flags@) == flags_of(a.take(i as int)),
            arg_views(positionals@) == positionals_of(a.take(i as int)),
        decreases args.len() - i,
    {
        let ghost t = a.take(i + 1);
        proof {
            assert(t.drop_last() =~= a.take(i as int));
            assert(t.last() == args@[i as int]@);
        }
        if starts_with_dash(&args[i]) {
            flags.push(args[i].clone());
            proof {
                assert(arg_views(flags@) =~= flags_of(t));
            }
        } else {
            positionals.push(args[i].clone());
            proof {
                assert(arg_views(positionals@) =~= positionals_of(t));
            }
        }
        i = i + 1;
    }
    proof {
        assert(a.take(args.len() as int) =~= a);
    }
    let mut rest: Vec<String> = Vec::new();
    let mut j: usize = 1;
    while j < positionals.len()
        invariant
            1 <= j <= positionals.len(),
            arg_views(rest@) =~= arg_views(positionals@).subrange(1, j as int),
        decreases positionals.len() - j,
    {
        let ghost before = rest@;
        rest.push(positionals[j].clone());
        proof {
            assert(rest@ == before.push(positionals@[j as int]));
            assert(arg_views(rest@) =~= arg_views(before).push(positionals@[j as int]@));
            assert(arg_views(rest@) =~= arg_views(positionals@).subrange(1, j + 1));
        }
        j = j + 1;
    }
    proof {
        assert(arg_views(rest@) =~= arg_views(positionals@).drop_first());
    }
    mark(&rest, &flags, repo)
}

} // verus!
