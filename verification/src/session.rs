//! Session persistence: which tabs are open, saved as the browser runs and restored on the
//! next start.
//!
//! The file is one tab per line in strip order, `[*][!]<url>`: `*` marks the active tab,
//! `!` a pinned one. Lines that are empty or start with `#` are comments.

use vstd::prelude::*;
use crate::text::{push_char, to_chars};

verus! {

/// One open tab, as remembered across restarts.
#[derive(Debug, Clone, PartialEq, Eq)]
pub struct SessionTab {
    pub url: String,
    pub pinned: bool,
    pub active: bool,
}

pub struct SessionTabView {
    pub url: Seq<char>,
    pub pinned: bool,
    pub active: bool,
}

impl View for SessionTab {
    type V = SessionTabView;

    open spec fn view(&self) -> SessionTabView {
        SessionTabView { url: self.url@, pinned: self.pinned, active: self.active }
    }
}

/// The first line of every session file.
pub open spec fn header() -> Seq<char> {
    "# gosub-beacon session v1\n"@
}

/// The line a tab is saved as, newline included.
pub open spec fn tab_line(t: SessionTabView) -> Seq<char> {
    (if t.active { seq!['*'] } else { Seq::empty() }) + (if t.pinned { seq!['!'] } else { Seq::empty() })
        + t.url + seq!['\n']
}

/// The tab lines, in order.
pub open spec fn tab_lines(tabs: Seq<SessionTabView>) -> Seq<char>
    decreases tabs.len(),
{
    if tabs.len() == 0 {
        Seq::empty()
    } else {
        tab_line(tabs[0]) + tab_lines(tabs.drop_first())
    }
}

/// The whole session file for these tabs.
pub open spec fn serialized(tabs: Seq<SessionTabView>) -> Seq<char> {
    header() + tab_lines(tabs)
}

/// The lowest position of a newline in `s`, if any.
pub open spec fn first_newline(s: Seq<char>) -> Option<int>
    decreases s.len(),
{
    if s.len() == 0 {
        None
    } else if s[0] == '\n' {
        Some(0)
    } else {
        match first_newline(s.drop_first()) {
            Some(k) => Some(k + 1),
            None => None,
        }
    }
}

pub proof fn lemma_first_newline(s: Seq<char>)
    ensures
        match first_newline(s) {
            Some(k) => 0 <= k < s.len() && s[k] == '\n' && forall|j: int| 0 <= j < k ==> s[j] != '\n',
            None => forall|j: int| 0 <= j < s.len() ==> s[j] != '\n',
        },
    decreases s.len(),
{
    if s.len() > 0 && s[0] != '\n' {
        lemma_first_newline(s.drop_first());
        assert forall|j: int| 0 < j < s.len() implies s.drop_first()[j - 1] == s[j] by {}
    }
}

/// A line without its line ending's carriage return.
pub open spec fn strip_cr(l: Seq<char>) -> Seq<char> {
    if l.len() > 0 && l.last() == '\r' { l.drop_last() } else { l }
}

/// The lines of `s` as `str::lines` gives them: split at `\n` (a `\r` right before it is
/// part of the line ending); the last line needs no ending, and an ending at the very end
/// starts no further line.
pub open spec fn lines_of(s: Seq<char>) -> Seq<Seq<char>>
    decreases s.len(),
{
    if s.len() == 0 {
        Seq::empty()
    } else {
        match first_newline(s) {
            None => seq![s],
            Some(k) => {
                proof { lemma_first_newline(s); }
                seq![strip_cr(s.take(k))] + lines_of(s.skip(k + 1))
            },
        }
    }
}

/// What one line of a session file says, if it names a tab: comments and blank lines do
/// not, nor does a line with only markers.
pub open spec fn parse_line(l: Seq<char>) -> Option<SessionTabView> {
    if l.len() == 0 || l[0] == '#' {
        None
    } else {
        let active = l[0] == '*';
        let l1 = if active { l.skip(1) } else { l };
        let pinned = l1.len() > 0 && l1[0] == '!';
        let l2 = if pinned { l1.skip(1) } else { l1 };
        if l2.len() == 0 {
            None
        } else {
            Some(SessionTabView { url: l2, pinned, active })
        }
    }
}

/// The tabs named by these lines, in order.
pub open spec fn parse_lines(ls: Seq<Seq<char>>) -> Seq<SessionTabView>
    decreases ls.len(),
{
    if ls.len() == 0 {
        Seq::empty()
    } else {
        let rest = parse_lines(ls.drop_first());
        match parse_line(ls[0]) {
            Some(t) => seq![t] + rest,
            None => rest,
        }
    }
}

/// The tabs a session file's text restores.
pub open spec fn parsed(content: Seq<char>) -> Seq<SessionTabView> {
    parse_lines(lines_of(content))
}

proof fn lemma_parse_lines_push(ls: Seq<Seq<char>>, l: Seq<char>)
    ensures
        parse_lines(ls.push(l)) == parse_lines(ls) + match parse_line(l) {
            Some(t) => seq![t],
            None => Seq::<SessionTabView>::empty(),
        },
    decreases ls.len(),
{
    if ls.len() > 0 {
        assert(ls.push(l).drop_first() =~= ls.drop_first().push(l));
        lemma_parse_lines_push(ls.drop_first(), l);
        assert(ls.push(l)[0] == ls[0]);
        assert(parse_lines(ls.push(l)) =~= parse_lines(ls) + match parse_line(l) {
            Some(t) => seq![t],
            None => Seq::<SessionTabView>::empty(),
        });
    } else {
        assert(ls.push(l).drop_first() =~= Seq::<Seq<char>>::empty());
        assert(ls.push(l)[0] == l);
        assert(parse_lines(ls.push(l).drop_first()) == Seq::<SessionTabView>::empty());
        assert(parse_lines(ls.push(l)) =~= parse_lines(ls) + match parse_line(l) {
            Some(t) => seq![t],
            None => Seq::<SessionTabView>::empty(),
        });
    }
}

proof fn lemma_tab_lines_push(tabs: Seq<SessionTabView>, t: SessionTabView)
    ensures
        tab_lines(tabs.push(t)) == tab_lines(tabs) + tab_line(t),
    decreases tabs.len(),
{
    if tabs.len() > 0 {
        assert(tabs.push(t).drop_first() =~= tabs.drop_first().push(t));
        lemma_tab_lines_push(tabs.drop_first(), t);
        assert(tabs.push(t)[0] == tabs[0]);
        assert(tab_lines(tabs.push(t)) =~= tab_lines(tabs) + tab_line(t));
    } else {
        assert(tabs.push(t).drop_first() =~= Seq::<SessionTabView>::empty());
        assert(tabs.push(t)[0] == t);
        assert(tab_lines(tabs.push(t).drop_first()) == Seq::<char>::empty());
        assert(tab_lines(tabs.push(t)) =~= tab_line(t));
    }
}

/// The lines of `s` when a newline sits at `k` and none before it.
proof fn lemma_lines_at(s: Seq<char>, k: int)
    requires
        0 <= k < s.len(),
        s[k] == '\n',
        forall|j: int| 0 <= j < k ==> s[j] != '\n',
    ensures
        lines_of(s) == seq![strip_cr(s.take(k))] + lines_of(s.skip(k + 1)),
{
    lemma_first_newline(s);
    match first_newline(s) {
        Some(m) => {
            assert(m == k);
        },
        None => {
            assert(s[k] != '\n');
        },
    }
}

/// The session file for `tabs`.
pub fn serialize(tabs: &[SessionTab]) -> (res: String)
    ensures
        res@ == serialized(tabs@.map_values(|t: SessionTab| t@)),
{
    let mut out = "# gosub-beacon session v1\n".to_string();
    let ghost views = tabs@.map_values(|t: SessionTab| t@);
    let mut i: usize = 0;
    assert(views.take(0) =~= Seq::<SessionTabView>::empty());
    while i < tabs.len()
        invariant
            i <= tabs.len(),
            views == tabs@.map_values(|t: SessionTab| t@),
            out@ == header() + tab_lines(views.take(i as int)),
        decreases tabs.len() - i,
    {
        let tab = &tabs[i];
        let ghost before = out@;
        if tab.active {
            push_char(&mut out, '*');
        }
        if tab.pinned {
            push_char(&mut out, '!');
        }
        out.append(tab.url.as_str());
        push_char(&mut out, '\n');
        proof {
            assert(views.take(i as int + 1) =~= views.take(i as int).push(views[i as int]));
            lemma_tab_lines_push(views.take(i as int), views[i as int]);
            assert(out@ =~= before + tab_line(views[i as int]));
        }
        i += 1;
    }
    assert(views.take(tabs.len() as int) =~= views);
    out
}

fn line_tab(chars: &Vec<char>, start: usize, end: usize) -> (res: Option<SessionTab>)
    requires
        start <= end <= chars@.len(),
    ensures
        match parse_line(chars@.subrange(start as int, end as int)) {
            Some(t) => res matches Some(r) && r@ == t,
            None => res is None,
        },
{
    let ghost l = chars@.subrange(start as int, end as int);
    if start == end || chars[start] == '#' {
        return None;
    }
    let mut from = start;
    let active = chars[from] == '*';
    if active {
        from += 1;
    }
    let pinned = from < end && chars[from] == '!';
    if pinned {
        from += 1;
    }
    proof {
        let l1 = if active { l.skip(1) } else { l };
        let l2 = if pinned { l1.skip(1) } else { l1 };
        assert(l2 =~= chars@.subrange(from as int, end as int));
    }
    if from == end {
        return None;
    }
    let mut url = String::new();
    let mut i = from;
    while i < end
        invariant
            from <= i <= end,
            end <= chars@.len(),
            url@ == chars@.subrange(from as int, i as int),
        decreases end - i,
    {
        push_char(&mut url, chars[i]);
        assert(url@ =~= chars@.subrange(from as int, i as int + 1));
        i += 1;
    }
    Some(SessionTab { url, pinned, active })
}

/// The tabs a session file's text names, in order.
pub fn parse(content: &str) -> (res: Vec<SessionTab>)
    ensures
        res@.map_values(|t: SessionTab| t@) == parsed(content@),
{
    let chars = to_chars(content);
    let ghost s = chars@;
    let mut res: Vec<SessionTab> = Vec::new();
    let ghost mut done: Seq<Seq<char>> = Seq::empty();
    let mut start: usize = 0;
    let mut i: usize = 0;
    assert(s.skip(0) =~= s);
    while i < chars.len()
        invariant
            s == chars@,
            start <= i <= chars.len(),
            lines_of(s) == done + lines_of(s.skip(start as int)),
            forall|j: int| start <= j < i ==> s[j] != '\n',
            res@.map_values(|t: SessionTab| t@) == parse_lines(done),
        decreases chars.len() - i,
    {
        if chars[i] == '\n' {
            let mut end = i;
            if end > start && chars[end - 1] == '\r' {
                end = end - 1;
            }
            let ghost line = s.subrange(start as int, i as int);
            proof {
                let rest = s.skip(start as int);
                assert forall|j: int| 0 <= j < i - start implies rest[j] != '\n' by {
                    assert(rest[j] == s[start + j]);
                }
                lemma_lines_at(rest, i - start);
                assert(rest.take(i - start) =~= line);
                assert(rest.skip(i - start + 1) =~= s.skip(i as int + 1));
                assert(strip_cr(line) =~= s.subrange(start as int, end as int));
            }
            let tab = line_tab(&chars, start, end);
            let ghost before = res@;
            proof {
                lemma_parse_lines_push(done, strip_cr(line));
                done = done.push(strip_cr(line));
            }
            match tab {
                Some(t) => {
                    res.push(t);
                    assert(res@.map_values(|t: SessionTab| t@) =~= before.map_values(|t: SessionTab| t@).push(
                        res@.last()@,
                    ));
                },
                None => {},
            }
            start = i + 1;
        }
        i += 1;
    }
    if start < chars.len() {
        let ghost line = s.skip(start as int);
        proof {
            lemma_first_newline(line);
            match first_newline(line) {
                Some(k) => {
                    assert(line[k] == s[start + k]);
                },
                None => {},
            }
            assert(lines_of(line) == seq![line]);
            assert(line =~= s.subrange(start as int, chars.len() as int));
            lemma_parse_lines_push(done, line);
        }
        let tab = line_tab(&chars, start, chars.len());
        let ghost before = res@;
        match tab {
            Some(t) => {
                res.push(t);
                assert(res@.map_values(|t: SessionTab| t@) =~= before.map_values(|t: SessionTab| t@).push(
                    res@.last()@,
                ));
            },
            None => {},
        }
        proof {
            assert(done.push(line) =~= done + seq![line]);
        }
    } else {
        proof {
            assert(s.skip(start as int).len() == 0);
            assert(done + Seq::<Seq<char>>::empty() =~= done);
        }
    }
    res
}

/// A tab that a session file can carry unchanged: a non-empty address with no line break
/// in it and no carriage return at its end, that cannot be mistaken for the markers (a
/// leading `!` on an unpinned tab, a leading `*` or `#` on a tab with neither marker).
pub open spec fn restorable(t: SessionTabView) -> bool {
    &&& t.url.len() > 0
    &&& !t.url.contains('\n')
    &&& t.url.last() != '\r'
    &&& !t.pinned ==> t.url[0] != '!'
    &&& (!t.pinned && !t.active) ==> (t.url[0] != '*' && t.url[0] != '#')
}

proof fn lemma_tab_lines_parse(tabs: Seq<SessionTabView>)
    requires
        forall|i: int| 0 <= i < tabs.len() ==> restorable(#[trigger] tabs[i]),
    ensures
        parse_lines(lines_of(tab_lines(tabs))) == tabs,
    decreases tabs.len(),
{
    if tabs.len() == 0 {
        assert(tab_lines(tabs) =~= Seq::<char>::empty());
        assert(lines_of(tab_lines(tabs)) =~= Seq::<Seq<char>>::empty());
        assert(parse_lines(lines_of(tab_lines(tabs))) =~= tabs);
    } else {
        let t = tabs[0];
        assert(restorable(t));
        let rest = tabs.drop_first();
        assert forall|i: int| 0 <= i < rest.len() implies restorable(#[trigger] rest[i]) by {
            assert(rest[i] == tabs[i + 1]);
        }
        lemma_tab_lines_parse(rest);
        let prefix = (if t.active { seq!['*'] } else { Seq::empty() }) + (if t.pinned { seq!['!'] } else {
            Seq::empty()
        });
        let content = prefix + t.url;
        let all = tab_lines(tabs);
        let k = content.len() as int;
        assert(all =~= content + seq!['\n'] + tab_lines(rest));
        assert forall|j: int| 0 <= j < k implies all[j] != '\n' by {
            assert(all[j] == content[j]);
            if j >= prefix.len() {
                assert(content[j] == t.url[j - prefix.len()]);
                if t.url[j - prefix.len()] == '\n' {
                    assert(t.url.contains('\n'));
                }
            }
        }
        assert(all[k] == '\n');
        lemma_lines_at(all, k);
        assert(all.take(k) =~= content);
        assert(all.skip(k + 1) =~= tab_lines(rest));
        assert(content.last() == t.url.last());
        assert(strip_cr(content) == content);
        // The line reads back as the tab it was written for.
        if t.active {
            assert(content[0] == '*');
            assert(content.skip(1) =~= (if t.pinned { seq!['!'] } else { Seq::<char>::empty() }) + t.url);
        } else {
            assert(content =~= (if t.pinned { seq!['!'] } else { Seq::<char>::empty() }) + t.url);
        }
        if t.pinned {
            let l1 = if t.active { content.skip(1) } else { content };
            assert(l1[0] == '!');
            assert(l1.skip(1) =~= t.url);
        }
        assert(parse_line(content) == Some(t));
        let ls = lines_of(all);
        assert(ls[0] == content);
        assert(ls.drop_first() =~= lines_of(tab_lines(rest)));
        assert(parse_lines(ls) =~= seq![t] + rest);
        assert(seq![t] + rest =~= tabs);
    }
}

/// Saving tabs and reading the file back gives the same tabs, in the same order, with the
/// same pinned and active marks, for every tab the format can carry (see [`restorable`]).
pub proof fn session_round_trips(tabs: Seq<SessionTabView>)
    requires
        forall|i: int| 0 <= i < tabs.len() ==> restorable(#[trigger] tabs[i]),
    ensures
        parsed(serialized(tabs)) == tabs,
{
    reveal_strlit("# gosub-beacon session v1\n");
    let h = header();
    let all = serialized(tabs);
    let k = h.len() - 1;
    assert(all =~= h + tab_lines(tabs));
    assert forall|j: int| 0 <= j < k implies all[j] != '\n' by {
        assert(all[j] == h[j]);
    }
    assert(all[k] == h[k]);
    lemma_lines_at(all, k);
    assert(all.skip(k + 1) =~= tab_lines(tabs));
    let first = strip_cr(all.take(k));
    assert(all.take(k)[0] == '#');
    assert(first[0] == '#');
    assert(parse_line(first) is None);
    let ls = lines_of(all);
    assert(ls.drop_first() =~= lines_of(tab_lines(tabs)));
    lemma_tab_lines_parse(tabs);
}

} // verus!
