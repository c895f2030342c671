use vstd::prelude::*;
use vstd::string::*;
use crate::outline::{leading_spaces, lines_view};

verus! {

/// Index of the first `c` in `s` at or after `i`, or the length of `s`.
pub open spec fn find_from(s: Seq<char>, c: char, i: nat) -> nat
    decreases s.len() - i,
{
    if i >= s.len() {
        s.len()
    } else if s[i as int] == c {
        i
    } else {
        find_from(s, c, i + 1)
    }
}

pub open spec fn is_separator(c: char) -> bool {
    c == '/' || c == '\\'
}

/// `s` with every path separator replaced by a dash.
pub open spec fn dashed(s: Seq<char>) -> Seq<char> {
    Seq::new(s.len(), |i: int| if is_separator(s[i]) { '-' } else { s[i] })
}

/// `s` with every `/` replaced by a dash; other characters, backslashes
/// included, as they were.
pub open spec fn slashes_dashed(s: Seq<char>) -> Seq<char> {
    Seq::new(s.len(), |i: int| if s[i] == '/' { '-' } else { s[i] })
}

/// `s` without a leading `./`.
pub open spec fn without_dot_slash(s: Seq<char>) -> Seq<char> {
    if s.len() >= 2 && s[0] == '.' && s[1] == '/' {
        s.subrange(2, s.len() as int)
    } else {
        s
    }
}

pub open spec fn ends_with_md(s: Seq<char>) -> bool {
    s.len() >= 3 && s[s.len() - 3] == '.' && s[s.len() - 2] == 'm' && s[s.len() - 1] == 'd'
}

/// `s` without a trailing `.md`.
pub open spec fn without_md(s: Seq<char>) -> Seq<char> {
    if ends_with_md(s) {
        s.subrange(0, s.len() - 3)
    } else {
        s
    }
}

/// A link target as the sidebar writes it: no `./` prefix, each `/`
/// dashed, no `.md` suffix.
pub open spec fn flat_target(t: Seq<char>) -> Seq<char> {
    without_md(slashes_dashed(without_dot_slash(t)))
}

/// Position of the first `(` of a line.
pub open spec fn open_paren(s: Seq<char>) -> nat {
    find_from(s, '(', 0)
}

/// Position of the first `)` after the first `(`, or the length of the line.
pub open spec fn close_paren(s: Seq<char>) -> nat {
    find_from(s, ')', open_paren(s) + 1)
}

/// The link target of a line: the text between its first `(` and the `)`
/// that closes it (or the end of the line).
pub open spec fn link_target(s: Seq<char>) -> Seq<char> {
    if open_paren(s) >= s.len() {
        Seq::empty()
    } else {
        s.subrange(open_paren(s) + 1 as int, close_paren(s) as int)
    }
}

/// A sidebar line: the line with its link target flattened, the rest as it
/// was.
pub open spec fn flat_entry(s: Seq<char>) -> Seq<char> {
    if open_paren(s) >= s.len() {
        s
    } else {
        s.subrange(0, open_paren(s) + 1 as int) + flat_target(link_target(s)) + s.subrange(close_paren(s) as int, s.len() as int)
    }
}

pub open spec fn has_char(s: Seq<char>, c: char) -> bool {
    exists|i: int| 0 <= i < s.len() && s[i] == c
}

/// A line that looks like a link: it holds both `[` and `(`.
pub open spec fn is_link_shaped(s: Seq<char>) -> bool {
    has_char(s, '[') && has_char(s, '(')
}

/// A line that holds the list bullet `- `.
pub open spec fn has_bullet(s: Seq<char>) -> bool {
    exists|i: int| 0 <= i && i + 1 < s.len() && #[trigger] s[i] == '-' && s[i + 1] == ' '
}

fn find_char(s: &str, c: char, from: usize) -> (r: usize)
    ensures
        r == find_from(s@, c, from as nat),
{
    let n = s.unicode_len();
    if from >= n {
        return n;
    }
    let mut i: usize = from;
    while i < n
        invariant
            n == s@.len(),
            from <= i <= n,
            find_from(s@, c, i as nat) == find_from(s@, c, from as nat),
        decreases n - i,
    {
        if s.get_char(i) == c {
            return i;
        }
        i = i + 1;
    }
    n
}

/// Whether `s` holds the character `c`.
pub fn contains_char(s: &str, c: char) -> (r: bool)
    ensures
        r == has_char(s@, c),
{
    let n = s.unicode_len();
    let mut i: usize = 0;
    while i < n
        invariant
            n == s@.len(),
            i <= n,
            forall|j: int| 0 <= j < i ==> s@[j] != c,
        decreases n - i,
    {
        if s.get_char(i) == c {
            return true;
        }
        i = i + 1;
    }
    false
}

/// Whether a line of the table of contents is link-shaped.
pub fn is_link_line(s: &str) -> (r: bool)
    ensures
        r == is_link_shaped(s@),
{
    contains_char(s, '[') && contains_char(s, '(')
}

/// Whether a line carries the list bullet `- `.
pub fn has_bullet_marker(s: &str) -> (r: bool)
    ensures
        r == has_bullet(s@),
{
    let n = s.unicode_len();
    let mut i: usize = 0;
    while i < n
        invariant
            n == s@.len(),
            i <= n,
            forall|j: int| 0 <= j < i && j + 1 < n ==> !(#[trigger] s@[j] == '-' && s@[j + 1] == ' '),
        decreases n - i,
    {
        if i + 1 < n && s.get_char(i) == '-' && s.get_char(i + 1) == ' ' {
            return true;
        }
        i = i + 1;
    }
    false
}

/// First step of flattening a target: drop a leading `./`.
pub fn strip_dot_slash(t: &str) -> (r: &str)
    ensures
        r@ == without_dot_slash(t@),
{
    let n = t.unicode_len();
    if n >= 2 && t.get_char(0) == '.' && t.get_char(1) == '/' {
        t.substring_char(2, n)
    } else {
        t
    }
}

/// Replace every path separator, a slash or a backslash, by a dash.
pub fn dash_separators(t: &str) -> (r: String)
    ensures
        r@ == dashed(t@),
{
    let n = t.unicode_len();
    let mut out = String::new();
    let mut i: usize = 0;
    while i < n
        invariant
            n == t@.len(),
            i <= n,
            out@ == dashed(t@.subrange(0, i as int)),
        decreases n - i,
    {
        let c = t.get_char(i);
        let ghost before = out@;
        if c == '/' || c == '\\' {
            proof {
                reveal_strlit("-");
            }
            out.append("-");
        } else {
            out.append(t.substring_char(i, i + 1));
        }
        assert(out@ =~= dashed(t@.subrange(0, i + 1)));
        i = i + 1;
    }
    assert(t@.subrange(0, n as int) =~= t@);
    out
}

/// Second step for a link target: replace every `/` by a dash.
pub fn dash_slashes(t: &str) -> (r: String)
    ensures
        r@ == slashes_dashed(t@),
{
    let n = t.unicode_len();
    let mut out = String::new();
    let mut i: usize = 0;
    while i < n
        invariant
            n == t@.len(),
            i <= n,
            out@ == slashes_dashed(t@.subrange(0, i as int)),
        decreases n - i,
    {
        let c = t.get_char(i);
        if c == '/' {
            proof {
                reveal_strlit("-");
            }
            out.append("-");
        } else {
            out.append(t.substring_char(i, i + 1));
        }
        assert(out@ =~= slashes_dashed(t@.subrange(0, i + 1)));
        i = i + 1;
    }
    assert(t@.subrange(0, n as int) =~= t@);
    out
}

/// Third step: drop a trailing `.md`.
pub fn strip_md(t: &str) -> (r: &str)
    ensures
        r@ == without_md(t@),
{
    let n = t.unicode_len();
    if n >= 3 && t.get_char(n - 3) == '.' && t.get_char(n - 2) == 'm' && t.get_char(n - 1) == 'd' {
        t.substring_char(0, n - 3)
    } else {
        t
    }
}

/// A link target as the sidebar writes it.
pub fn flatten_target(t: &str) -> (r: String)
    ensures
        r@ == flat_target(t@),
{
    let step1 = strip_dot_slash(t);
    let step2 = dash_slashes(step1);
    let step3 = strip_md(step2.as_str());
    String::from_str(step3)
}

proof fn lemma_find_from_bounds(s: Seq<char>, c: char, i: nat)
    ensures
        find_from(s, c, i) == s.len() || (i <= find_from(s, c, i) < s.len() && s[find_from(s, c, i) as int] == c),
        i <= s.len() ==> i <= find_from(s, c, i) <= s.len(),
        forall|j: int| i <= j < find_from(s, c, i) ==> s[j] != c,
    decreases s.len() - i,
{
    if i < s.len() && s[i as int] != c {
        lemma_find_from_bounds(s, c, i + 1);
    }
}

/// The link target of a line.
pub fn link_target_of(line: &str) -> (r: String)
    ensures
        r@ == link_target(line@),
{
    let n = line.unicode_len();
    let open = find_char(line, '(', 0);
    if open >= n {
        return String::new();
    }
    let close = find_char(line, ')', open + 1);
    proof {
        lemma_find_from_bounds(line@, ')', (open + 1) as nat);
    }
    String::from_str(line.substring_char(open + 1, close))
}

/// The sidebar line for a link line of the table of contents.
pub fn flat_entry_of(line: &str) -> (r: String)
    ensures
        r@ == flat_entry(line@),
{
    let n = line.unicode_len();
    let open = find_char(line, '(', 0);
    if open >= n {
        return String::from_str(line);
    }
    let close = find_char(line, ')', open + 1);
    proof {
        lemma_find_from_bounds(line@, ')', (open + 1) as nat);
    }
    let mut out = String::from_str(line.substring_char(0, open + 1));
    let target = flatten_target(line.substring_char(open + 1, close));
    out.append(target.as_str());
    out.append(line.substring_char(close, n));
    out
}

/// The lines of a text, split at each newline (`k` newlines give `k + 1`
/// lines).
pub open spec fn split_lines(s: Seq<char>) -> Seq<Seq<char>>
    decreases s.len(),
{
    let i = find_from(s, '\n', 0);
    if i >= s.len() {
        seq![s]
    } else {
        seq![s.subrange(0, i as int)] + split_lines(s.subrange(i + 1 as int, s.len() as int))
    }
}

/// The link-shaped lines of `ls`, in order.
pub open spec fn keep_link_shaped(ls: Seq<Seq<char>>) -> Seq<Seq<char>>
    decreases ls.len(),
{
    if ls.len() == 0 {
        ls
    } else if is_link_shaped(ls.last()) {
        keep_link_shaped(ls.drop_last()).push(ls.last())
    } else {
        keep_link_shaped(ls.drop_last())
    }
}

/// The content file that a bulleted line refers to: the target of its
/// sidebar line, with `.md` put back.
pub open spec fn progression_item(line: Seq<char>) -> Seq<char> {
    link_target(flat_entry(line)) + seq!['.', 'm', 'd']
}

/// The reading order: for each bulleted line, in order, the file it refers to.
pub open spec fn reading_order(ls: Seq<Seq<char>>) -> Seq<Seq<char>>
    decreases ls.len(),
{
    if ls.len() == 0 {
        Seq::empty()
    } else if has_bullet(ls.last()) {
        reading_order(ls.drop_last()).push(progression_item(ls.last()))
    } else {
        reading_order(ls.drop_last())
    }
}

/// The first line of every sidebar.
pub const HOME_LINK: &'static str = "[Home](home)\n";

/// Each entry preceded by a newline.
pub open spec fn entry_block(es: Seq<Seq<char>>) -> Seq<char>
    decreases es.len(),
{
    if es.len() == 0 {
        Seq::empty()
    } else {
        entry_block(es.drop_last()) + seq!['\n'] + es.last()
    }
}

/// The sidebar: the home link, then the entries one per line, then an empty
/// last line.
pub open spec fn sidebar_doc(es: Seq<Seq<char>>) -> Seq<char> {
    HOME_LINK@ + entry_block(es) + seq!['\n']
}

proof fn lemma_find_first(t: Seq<char>, c: char, i: nat, k: nat)
    requires
        i <= k <= t.len(),
        forall|j: int| i <= j < k ==> t[j] != c,
        k == t.len() || t[k as int] == c,
    ensures
        find_from(t, c, i) == k,
    decreases k - i,
{
    if i < k {
        lemma_find_first(t, c, i + 1, k);
    }
}

/// Splits a text into its lines.
pub fn split_text_lines(text: &str) -> (r: Vec<String>)
    ensures
        lines_view(r) == split_lines(text@),
{
    let n = text.unicode_len();
    let ghost s = text@;
    let mut out: Vec<String> = Vec::new();
    let mut start: usize = 0;
    let mut i: usize = 0;
    proof {
        assert(s.subrange(0, n as int) =~= s);
        assert(lines_view(out) + split_lines(s.subrange(0, n as int)) =~= split_lines(s));
    }
    while i < n
        invariant
            n == s.len(),
            s == text@,
            start <= i <= n,
            forall|j: int| start <= j < i ==> s[j] != '\n',
            lines_view(out) + split_lines(s.subrange(start as int, n as int)) == split_lines(s),
        decreases n - i,
    {
        if text.get_char(i) == '\n' {
            let ghost t = s.subrange(start as int, n as int);
            proof {
                lemma_find_first(t, '\n', 0, (i - start) as nat);
                assert(t.subrange(0, (i - start) as int) =~= s.subrange(start as int, i as int));
                assert(t.subrange(i - start + 1, t.len() as int) =~= s.subrange(i + 1, n as int));
            }
            let ghost before = lines_view(out);
            out.push(String::from_str(text.substring_char(start, i)));
            assert(lines_view(out) =~= before + seq![s.subrange(start as int, i as int)]);
            start = i + 1;
        }
        i = i + 1;
    }
    let ghost t = s.subrange(start as int, n as int);
    proof {
        lemma_find_first(t, '\n', 0, t.len());
    }
    let ghost before = lines_view(out);
    out.push(String::from_str(text.substring_char(start, n)));
    assert(lines_view(out) =~= before + seq![t]);
    out
}

/// The link-shaped lines of a table of contents, in order.
pub fn link_lines(text: &str) -> (r: Vec<String>)
    ensures
        lines_view(r) == keep_link_shaped(split_lines(text@)),
{
    let all = split_text_lines(text);
    let ghost ls = lines_view(all);
    let mut out: Vec<String> = Vec::new();
    let mut i: usize = 0;
    proof {
        assert(ls.subrange(0, 0) =~= Seq::<Seq<char>>::empty());
        assert(lines_view(out) =~= Seq::<Seq<char>>::empty());
    }
    while i < all.len()
        invariant
            ls == lines_view(all),
            i <= all.len(),
            lines_view(out) == keep_link_shaped(ls.subrange(0, i as int)),
        decreases all.len() - i,
    {
        let ghost before = lines_view(out);
        assert(ls.subrange(0, i + 1).drop_last() =~= ls.subrange(0, i as int));
        assert(ls[i as int] == all@[i as int]@);
        if is_link_line(all[i].as_str()) {
            out.push(all[i].clone());
            assert(lines_view(out) =~= before.push(ls[i as int]));
        }
        i = i + 1;
    }
    assert(ls.subrange(0, all.len() as int) =~= ls);
    out
}

/// The sidebar line of each link line, in order.
pub fn sidebar_entries(lines: &Vec<String>) -> (r: Vec<String>)
    ensures
        lines_view(r) == lines_view(*lines).map_values(|l: Seq<char>| flat_entry(l)),
{
    let mut out: Vec<String> = Vec::new();
    let mut i: usize = 0;
    while i < lines.len()
        invariant
            i <= lines.len(),
            lines_view(out) == lines_view(*lines).subrange(0, i as int).map_values(|l: Seq<char>| flat_entry(l)),
        decreases lines.len() - i,
    {
        let ghost before = lines_view(out);
        assert(lines_view(*lines)[i as int] == lines@[i as int]@);
        let e = flat_entry_of(lines[i].as_str());
        out.push(e);
        assert(lines_view(out) =~= before.push(e@));
        assert(lines_view(out) =~= lines_view(*lines).subrange(0, i + 1).map_values(|l: Seq<char>| flat_entry(l)));
        i = i + 1;
    }
    assert(lines_view(*lines).subrange(0, lines.len() as int) =~= lines_view(*lines));
    out
}

/// The reading order of a list of link lines: for each bulleted line, the
/// file its sidebar line refers to, with `.md` put back.
pub fn progression_of(lines: &Vec<String>) -> (r: Vec<String>)
    ensures
        lines_view(r) == reading_order(lines_view(*lines)),
{
    let ghost ls = lines_view(*lines);
    let mut out: Vec<String> = Vec::new();
    let mut i: usize = 0;
    proof {
        assert(lines_view(out) =~= reading_order(ls.subrange(0, 0)));
    }
    while i < lines.len()
        invariant
            ls == lines_view(*lines),
            i <= lines.len(),
            lines_view(out) == reading_order(ls.subrange(0, i as int)),
        decreases lines.len() - i,
    {
        let ghost before = lines_view(out);
        assert(ls.subrange(0, i + 1).drop_last() =~= ls.subrange(0, i as int));
        assert(ls[i as int] == lines@[i as int]@);
        let line = lines[i].as_str();
        if has_bullet_marker(line) {
            let entry = flat_entry_of(line);
            let mut item = link_target_of(entry.as_str());
            proof {
                reveal_strlit(".md");
            }
            item.append(".md");
            assert(".md"@ =~= seq!['.', 'm', 'd']);
            assert(item@ == progression_item(ls[i as int]));
            out.push(item);
            assert(lines_view(out) =~= before.push(progression_item(ls[i as int])));
        }
        i = i + 1;
    }
    assert(ls.subrange(0, lines.len() as int) =~= ls);
    out
}

/// The text of the sidebar file for the given entries.
pub fn sidebar_text(entries: &Vec<String>) -> (r: String)
    ensures
        r@ == sidebar_doc(lines_view(*entries)),
{
    let ghost es = lines_view(*entries);
    let mut out = String::from_str(HOME_LINK);
    let mut i: usize = 0;
    proof {
        reveal_strlit("\n");
        assert(es.subrange(0, 0) =~= Seq::<Seq<char>>::empty());
        assert(out@ =~= HOME_LINK@ + entry_block(es.subrange(0, 0)));
    }
    while i < entries.len()
        invariant
            es == lines_view(*entries),
            i <= entries.len(),
            out@ == HOME_LINK@ + entry_block(es.subrange(0, i as int)),
        decreases entries.len() - i,
    {
        assert(es.subrange(0, i + 1).drop_last() =~= es.subrange(0, i as int));
        assert(es[i as int] == entries@[i as int]@);
        proof {
            reveal_strlit("\n");
        }
        out.append("\n");
        out.append(entries[i].as_str());
        assert(out@ =~= HOME_LINK@ + entry_block(es.subrange(0, i + 1)));
        i = i + 1;
    }
    assert(es.subrange(0, entries.len() as int) =~= es);
    proof {
        reveal_strlit("\n");
    }
    out.append("\n");
    out
}

/// `item` is the file that some bulleted line of `ls` refers to.
pub open spec fn from_bulleted_line(ls: Seq<Seq<char>>, item: Seq<char>) -> bool {
    exists|i: int| 0 <= i < ls.len() && has_bullet(ls[i]) && item == progression_item(#[trigger] ls[i])
}

/// Every entry of the reading order comes from a bulleted line: a line
/// without the bullet never contributes one, even when it is link-shaped.
pub proof fn law_reading_order_needs_bullet(ls: Seq<Seq<char>>)
    ensures
        forall|k: int| 0 <= k < reading_order(ls).len() ==> from_bulleted_line(ls, #[trigger] reading_order(ls)[k]),
    decreases ls.len(),
{
    if ls.len() > 0 {
        let rest = ls.drop_last();
        law_reading_order_needs_bullet(rest);
        assert forall|k: int| 0 <= k < reading_order(ls).len() implies from_bulleted_line(ls, #[trigger] reading_order(ls)[k]) by {
            if k < reading_order(rest).len() {
                assert(reading_order(ls)[k] == reading_order(rest)[k]);
                assert(from_bulleted_line(rest, reading_order(rest)[k]));
                let i = choose|i: int| 0 <= i < rest.len() && has_bullet(rest[i]) && reading_order(rest)[k] == progression_item(#[trigger] rest[i]);
                assert(ls[i] == rest[i]);
            } else {
                assert(has_bullet(ls.last()));
                assert(reading_order(ls) == reading_order(rest).push(progression_item(ls.last())));
                assert(reading_order(ls)[k] == progression_item(ls[ls.len() - 1]));
            }
        }
    }
}

proof fn lemma_leading_spaces_shape(s: Seq<char>)
    ensures
        leading_spaces(s) <= s.len(),
        forall|j: int| 0 <= j < leading_spaces(s) ==> s[j] == ' ',
    decreases s.len(),
{
    if s.len() > 0 && s[0] == ' ' {
        let t = s.drop_first();
        lemma_leading_spaces_shape(t);
        assert forall|j: int| 0 <= j < leading_spaces(s) implies s[j] == ' ' by {
            if j > 0 {
                assert(s[j] == t[j - 1]);
            }
        }
    }
}

proof fn lemma_leading_spaces_prefix(s: Seq<char>, t: Seq<char>, k: nat)
    requires
        k <= s.len(),
        k <= t.len(),
        s.subrange(0, k as int) == t.subrange(0, k as int),
        leading_spaces(s) < k,
    ensures
        leading_spaces(t) == leading_spaces(s),
    decreases k,
{
    assert(s[0] == s.subrange(0, k as int)[0]);
    assert(t[0] == t.subrange(0, k as int)[0]);
    if s[0] == ' ' {
        let s1 = s.drop_first();
        let t1 = t.drop_first();
        assert(s1.subrange(0, k - 1) =~= s.subrange(0, k as int).drop_first());
        assert(t1.subrange(0, k - 1) =~= t.subrange(0, k as int).drop_first());
        lemma_leading_spaces_prefix(s1, t1, (k - 1) as nat);
    }
}

/// A sidebar line keeps the leading spaces of its link line, and so its
/// indentation depth.
pub proof fn law_sidebar_keeps_indent(s: Seq<char>)
    ensures
        leading_spaces(flat_entry(s)) == leading_spaces(s),
{
    let o = open_paren(s);
    lemma_find_from_bounds(s, '(', 0);
    if o < s.len() {
        lemma_leading_spaces_shape(s);
        if leading_spaces(s) > o {
            assert(s[o as int] == ' ');
        }
        let f = flat_entry(s);
        assert(f.subrange(0, o + 1 as int) =~= s.subrange(0, o + 1 as int));
        lemma_leading_spaces_prefix(s, f, o + 1);
    }
}

} // verus!
