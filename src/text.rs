//! The store files' format: one `key,value` entry per line.
use vstd::prelude::*;
use crate::entries::{Entries, keys_increasing, lemma_increasing_pairs, pairs_map};

verus! {

/// Relies on `String::push`: the character goes at the end.
#[verifier::external_body]
pub(crate) fn push_char(s: &mut String, c: char)
    ensures
        final(s)@ == old(s)@.push(c),
{
    s.push(c)
}

/// The text split at every newline: one more piece than there are newlines.
pub open spec fn segments(t: Seq<char>) -> Seq<Seq<char>>
    decreases t.len(),
{
    if t.len() == 0 {
        seq![Seq::<char>::empty()]
    } else {
        let s = segments(t.drop_last());
        if t.last() == '\n' {
            s.push(Seq::<char>::empty())
        } else {
            s.update(s.len() - 1, s.last().push(t.last()))
        }
    }
}

pub proof fn lemma_segments_len(t: Seq<char>)
    ensures
        segments(t).len() >= 1,
    decreases t.len(),
{
    if t.len() > 0 {
        lemma_segments_len(t.drop_last());
    }
}

/// A line without the carriage return that ends it, if any.
pub open spec fn strip_cr(l: Seq<char>) -> Seq<char> {
    if l.len() > 0 && l.last() == '\r' {
        l.drop_last()
    } else {
        l
    }
}

/// Where the field that starts at `i` ends: at the next comma, or at the end.
pub open spec fn field_end(l: Seq<char>, i: int) -> int
    decreases l.len() - i,
{
    if i < 0 || i >= l.len() {
        l.len() as int
    } else if l[i] == ',' {
        i
    } else {
        field_end(l, i + 1)
    }
}

pub(crate) proof fn lemma_field_end(l: Seq<char>, i: int, p: int)
    requires
        0 <= i <= p <= l.len(),
        forall|j: int| i <= j < p ==> l[j] != ',',
        p == l.len() || l[p] == ',',
    ensures
        field_end(l, i) == p,
    decreases p - i,
{
    if i < p {
        lemma_field_end(l, i + 1, p);
    }
}

/// The entry a line holds: the text before its first comma, and the text
/// between that comma and the next one (or the end). A line without a comma
/// holds none.
pub open spec fn record(line: Seq<char>) -> Option<(Seq<char>, Seq<char>)> {
    let s = strip_cr(line);
    let p = field_end(s, 0);
    if p >= s.len() {
        None
    } else {
        Some((s.subrange(0, p), s.subrange(p + 1, field_end(s, p + 1))))
    }
}

/// The entries of the lines, a later line overwriting an earlier one with the
/// same key.
pub open spec fn entries_of(lines: Seq<Seq<char>>) -> Map<Seq<char>, Seq<char>>
    decreases lines.len(),
{
    if lines.len() == 0 {
        Map::empty()
    } else {
        let m = entries_of(lines.drop_last());
        match record(lines.last()) {
            Some(kv) => m.insert(kv.0, kv.1),
            None => m,
        }
    }
}

/// The entries that a store file's text holds.
pub open spec fn parse_text(t: Seq<char>) -> Map<Seq<char>, Seq<char>> {
    entries_of(segments(t))
}

/// One entry as a line of a store file.
pub open spec fn entry_line(k: Seq<char>, v: Seq<char>) -> Seq<char> {
    k + seq![','] + v + seq!['\n']
}

/// The text of a store file that holds the pairs, in their order.
pub open spec fn render(ps: Seq<(Seq<char>, Seq<char>)>) -> Seq<char>
    decreases ps.len(),
{
    if ps.len() == 0 {
        Seq::empty()
    } else {
        render(ps.drop_last()) + entry_line(ps.last().0, ps.last().1)
    }
}

/// Reads the entry that one line holds.
pub fn split_record(line: &str) -> (r: Option<(String, String)>)
    ensures
        match r {
            Some(kv) => record(line@) == Some((kv.0@, kv.1@)),
            None => record(line@) is None,
        },
{
    let ghost s = strip_cr(line@);
    let n = line.unicode_len();
    let mut end = n;
    if n > 0 && line.get_char(n - 1) == '\r' {
        end = n - 1;
    }
    assert(s =~= line@.take(end as int));
    let mut key = String::new();
    let mut i: usize = 0;
    while i < end && line.get_char(i) != ','
        invariant
            n == line@.len(),
            end <= n,
            end == s.len(),
            s =~= line@.take(end as int),
            i <= end,
            key@ =~= s.subrange(0, i as int),
            forall|j: int| 0 <= j < i ==> s[j] != ',',
        decreases end - i,
    {
        push_char(&mut key, line.get_char(i));
        i = i + 1;
    }
    proof {
        lemma_field_end(s, 0, i as int);
    }
    if i == end {
        return None;
    }
    let p = i;
    i = i + 1;
    let mut value = String::new();
    while i < end && line.get_char(i) != ','
        invariant
            n == line@.len(),
            end <= n,
            end == s.len(),
            s =~= line@.take(end as int),
            p < i <= end,
            value@ =~= s.subrange(p + 1, i as int),
            forall|j: int| p + 1 <= j < i ==> s[j] != ',',
        decreases end - i,
    {
        push_char(&mut value, line.get_char(i));
        i = i + 1;
    }
    proof {
        lemma_field_end(s, p + 1, i as int);
    }
    Some((key, value))
}

/// Adds the entry that `line` holds, if any.
fn add_record(m: &mut Entries, line: &str)
    ensures
        final(m)@ == match record(line@) {
            Some(kv) => old(m)@.insert(kv.0, kv.1),
            None => old(m)@,
        },
{
    match split_record(line) {
        Some((k, v)) => m.insert(k, v),
        None => {},
    }
}

/// Reads a store file's text: each line that holds a comma gives an entry,
/// other lines are passed over.
pub fn parse_entries(text: &str) -> (r: Entries)
    ensures
        r@ == parse_text(text@),
{
    let ghost t = text@;
    let n = text.unicode_len();
    let mut m = Entries::new();
    let mut cur = String::new();
    let mut i: usize = 0;
    proof {
        assert(t.take(0) =~= Seq::<char>::empty());
    }
    while i < n
        invariant
            n == t.len(),
            t == text@,
            i <= n,
            segments(t.take(i as int)).len() >= 1,
            segments(t.take(i as int)).last() == cur@,
            m@ == entries_of(segments(t.take(i as int)).drop_last()),
        decreases n - i,
    {
        let c = text.get_char(i);
        let ghost s = segments(t.take(i as int));
        proof {
            assert(t.take(i + 1).drop_last() =~= t.take(i as int));
            assert(s =~= s.drop_last().push(s.last()));
        }
        if c == '\n' {
            add_record(&mut m, cur.as_str());
            cur = String::new();
            proof {
                assert(segments(t.take(i + 1)).drop_last() =~= s);
            }
        } else {
            push_char(&mut cur, c);
            proof {
                assert(segments(t.take(i + 1)).drop_last() =~= s.drop_last());
            }
        }
        i = i + 1;
    }
    proof {
        assert(t.take(n as int) =~= t);
        let s = segments(t);
        assert(s =~= s.drop_last().push(s.last()));
    }
    add_record(&mut m, cur.as_str());
    m
}

/// Writes the entries as a store file's text, one line each, in key order.
pub fn render_entries(m: &Entries) -> (r: String)
    ensures
        r@ == render(m.pairs()),
{
    let n = m.len();
    let mut out = String::new();
    let mut i: usize = 0;
    proof {
        assert(m.pairs().take(0) =~= Seq::<(Seq<char>, Seq<char>)>::empty());
    }
    while i < n
        invariant
            n == m.pairs().len(),
            i <= n,
            out@ == render(m.pairs().take(i as int)),
        decreases n - i,
    {
        out.append(m.key_at(i).as_str());
        push_char(&mut out, ',');
        out.append(m.value_at(i).as_str());
        push_char(&mut out, '\n');
        proof {
            let ps = m.pairs().take(i + 1);
            assert(ps.drop_last() =~= m.pairs().take(i as int));
            assert(out@ =~= render(ps));
        }
        i = i + 1;
    }
    proof {
        assert(m.pairs().take(n as int) =~= m.pairs());
    }
    out
}

/// A key or value that a line can hold as it is: no comma, no newline.
pub open spec fn plain_field(f: Seq<char>) -> bool {
    forall|i: int| 0 <= i < f.len() ==> f[i] != ',' && f[i] != '\n'
}

proof fn lemma_segments_append(t: Seq<char>, l: Seq<char>)
    requires
        forall|i: int| 0 <= i < l.len() ==> l[i] != '\n',
    ensures
        segments(t + l) == segments(t).update(segments(t).len() - 1, segments(t).last() + l),
    decreases l.len(),
{
    lemma_segments_len(t);
    if l.len() == 0 {
        assert(t + l =~= t);
        assert(segments(t).last() + l =~= segments(t).last());
        assert(segments(t).update(segments(t).len() - 1, segments(t).last()) =~= segments(t));
    } else {
        let l0 = l.drop_last();
        lemma_segments_append(t, l0);
        assert((t + l).drop_last() =~= t + l0);
        assert((t + l).last() == l.last());
        assert(segments(t).last() + l0 + seq![l.last()] =~= segments(t).last() + l);
        let s = segments(t + l0);
        assert(s.last() == segments(t).last() + l0);
        assert(l[l.len() - 1] != '\n');
        assert(s.len() == segments(t).len());
        assert(s.last().push(l.last()) =~= segments(t).last() + l);
        assert(s.update(s.len() - 1, s.last().push(l.last())) =~= segments(t).update(segments(t).len() - 1, segments(t).last() + l));
    }
}

/// Appending a line to a text that is empty or ends in a newline adds the
/// line's entry to what the text holds.
pub proof fn lemma_parse_append_line(t: Seq<char>, l: Seq<char>)
    requires
        t.len() == 0 || t.last() == '\n',
        forall|i: int| 0 <= i < l.len() ==> l[i] != '\n',
    ensures
        parse_text(t + l + seq!['\n']) == match record(l) {
            Some(kv) => parse_text(t).insert(kv.0, kv.1),
            None => parse_text(t),
        },
{
    lemma_segments_len(t);
    let s = segments(t);
    assert(s.last() == Seq::<char>::empty()) by {
        if t.len() > 0 {
            lemma_segments_len(t.drop_last());
        }
    }
    lemma_segments_append(t, l);
    assert(s.last() + l =~= l);
    let s1 = s.update(s.len() - 1, l);
    assert((t + l + seq!['\n']).drop_last() =~= t + l);
    assert(segments(t + l + seq!['\n']) == s1.push(Seq::<char>::empty()));
    assert(record(Seq::<char>::empty()) is None);
    assert(s1.push(Seq::<char>::empty()).drop_last() =~= s1);
    assert(s1.drop_last() =~= s.drop_last());
    assert(s1.last() == l);
    assert(entries_of(s1.push(Seq::<char>::empty())) == entries_of(s1));
    assert(s =~= s.drop_last().push(Seq::<char>::empty()));
    assert(entries_of(s) == entries_of(s.drop_last()));
}

proof fn lemma_record_of_entry(k: Seq<char>, v: Seq<char>)
    requires
        plain_field(k),
        plain_field(v),
        v.len() == 0 || v.last() != '\r',
    ensures
        record(k + seq![','] + v) == Some((k, v)),
{
    let s = k + seq![','] + v;
    assert(strip_cr(s) == s);
    lemma_field_end(s, 0, k.len() as int);
    lemma_field_end(s, k.len() as int + 1, s.len() as int);
    assert(s.subrange(0, k.len() as int) =~= k);
    assert(s.subrange(k.len() as int + 1, s.len() as int) =~= v);
}

proof fn lemma_render_round_trip(ps: Seq<(Seq<char>, Seq<char>)>)
    requires
        forall|i: int| 0 <= i < ps.len() ==> plain_field(#[trigger] ps[i].0) && plain_field(ps[i].1)
            && (ps[i].1.len() == 0 || ps[i].1.last() != '\r'),
    ensures
        parse_text(render(ps)) == pairs_map(ps),
        render(ps).len() == 0 || render(ps).last() == '\n',
    decreases ps.len(),
{
    if ps.len() == 0 {
        assert(render(ps) =~= Seq::<char>::empty());
        assert(segments(Seq::<char>::empty()) =~= seq![Seq::<char>::empty()]);
        assert(seq![Seq::<char>::empty()].drop_last() =~= Seq::<Seq<char>>::empty());
        assert(record(Seq::<char>::empty()) is None);
        let one = seq![Seq::<char>::empty()];
        assert(one.last() == Seq::<char>::empty());
        assert(entries_of(one) == entries_of(one.drop_last()));
        assert(entries_of(Seq::<Seq<char>>::empty()) == Map::<Seq<char>, Seq<char>>::empty());
        assert(parse_text(render(ps)) =~= pairs_map(ps));
    } else {
        let q = ps.drop_last();
        let (k, v) = ps.last();
        assert(plain_field(ps[ps.len() - 1].0));
        lemma_render_round_trip(q);
        let l = k + seq![','] + v;
        assert forall|i: int| 0 <= i < l.len() implies l[i] != '\n' by {
            if i < k.len() {
            } else if i > k.len() {
                assert(l[i] == v[i - k.len() - 1]);
            }
        }
        lemma_parse_append_line(render(q), l);
        lemma_record_of_entry(k, v);
        assert(render(ps) =~= render(q) + l + seq!['\n']);
    }
}

/// Writing entries out as a store file and reading the text back gives the
/// same entries, when no key or value holds a comma or a newline and no value
/// ends in a carriage return.
pub proof fn lemma_store_round_trip(m: Entries)
    requires
        keys_increasing(m.pairs()),
        forall|k: Seq<char>| #[trigger] m@.contains_key(k) ==> plain_field(k) && plain_field(m@[k])
            && (m@[k].len() == 0 || m@[k].last() != '\r'),
    ensures
        parse_text(render(m.pairs())) == m@,
{
    let ps = m.pairs();
    lemma_increasing_pairs(ps);
    assert forall|i: int| 0 <= i < ps.len() implies plain_field(#[trigger] ps[i].0) && plain_field(ps[i].1)
        && (ps[i].1.len() == 0 || ps[i].1.last() != '\r') by {
        assert(m@.contains_key(ps[i].0));
    }
    lemma_render_round_trip(ps);
}

} // verus!
