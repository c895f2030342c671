use vstd::prelude::*;
use vstd::string::*;
use vstd::utf8::encode_utf8;
use crate::outline::lines_view;
use crate::sidebar::{dashed, is_separator, without_md, strip_md};

verus! {

/// The page that the first entry of the reading order points back to.
pub const HOME_PAGE: &'static str = "home";

pub const NAV_OPEN: &'static str = "<table>\n<tr>\n<td><a href=\"";

pub const NAV_PREV_CLOSE: &'static str = "\">\u{25c0}</a></td>\n<td width=\"9999\" align=\"center\"></td>\n";

pub const NAV_NEXT_OPEN: &'static str = "<td><a href=\"";

pub const NAV_NEXT_CLOSE: &'static str = "\">\u{25b6}</a></td>\n";

pub const NAV_CLOSE: &'static str = "</tr>\n</table>\n\n";

/// The flat name of a file of the content tree: its relative path with every
/// separator dashed.
pub open spec fn flat_name(rel: Seq<char>) -> Seq<char> {
    dashed(rel)
}

/// Where the predecessor link of entry `i` points.
pub open spec fn previous_target(order: Seq<Seq<char>>, i: int) -> Seq<char> {
    if i == 0 {
        HOME_PAGE@
    } else {
        without_md(order[i - 1])
    }
}

/// Where the successor link of entry `i` points, if it has one.
pub open spec fn next_target(order: Seq<Seq<char>>, i: int) -> Option<Seq<char>> {
    if i + 1 < order.len() {
        Some(without_md(order[i + 1]))
    } else {
        None
    }
}

/// The navigation table with the given links, followed by a blank line.
pub open spec fn nav_markup(prev: Seq<char>, next: Option<Seq<char>>) -> Seq<char> {
    NAV_OPEN@ + prev + NAV_PREV_CLOSE@ + match next {
        Some(n) => NAV_NEXT_OPEN@ + n + NAV_NEXT_CLOSE@,
        None => Seq::empty(),
    } + NAV_CLOSE@
}

/// The navigation block of entry `i` of the reading order.
pub open spec fn nav_block(order: Seq<Seq<char>>, i: int) -> Seq<char> {
    nav_markup(previous_target(order, i), next_target(order, i))
}

/// `i` is the first position of `name` in `order`.
pub open spec fn first_position(order: Seq<Seq<char>>, name: Seq<char>, i: int) -> bool {
    &&& 0 <= i < order.len()
    &&& order[i] == name
    &&& forall|j: int| 0 <= j < i ==> order[j] != name
}

/// The file's bytes as written to the destination: the navigation block of
/// its first place in the reading order before its content, or the content
/// alone where it has no place there.
pub open spec fn decorated(order: Seq<Seq<char>>, name: Seq<char>, data: Seq<u8>) -> Seq<u8> {
    if exists|i: int| first_position(order, name, i) {
        encode_utf8(nav_block(order, choose|i: int| first_position(order, name, i))) + data
    } else {
        data
    }
}

/// The flat name of a file, from its path relative to the content root.
pub fn flatten_path(rel: &str) -> (r: String)
    ensures
        r@ == flat_name(rel@),
{
    crate::sidebar::dash_separators(rel)
}

/// `path` lies under `root`: it is `root`, a separator, then more.
pub open spec fn under_root(root: Seq<char>, path: Seq<char>) -> bool {
    &&& path.len() > root.len()
    &&& path.subrange(0, root.len() as int) == root
    &&& is_separator(path[root.len() as int])
}

/// The path of a file relative to the content root, where it lies under it.
pub fn strip_root(root: &str, path: &str) -> (r: Option<String>)
    ensures
        r is Some <==> under_root(root@, path@),
        r matches Some(rel) ==> rel@ == path@.subrange(root@.len() + 1 as int, path@.len() as int),
{
    let n = root.unicode_len();
    let m = path.unicode_len();
    if m <= n {
        return None;
    }
    let mut i: usize = 0;
    while i < n
        invariant
            n == root@.len(),
            m == path@.len(),
            n < m,
            i <= n,
            forall|j: int| 0 <= j < i ==> path@[j] == root@[j],
        decreases n - i,
    {
        if path.get_char(i) != root.get_char(i) {
            assert(path@.subrange(0, n as int)[i as int] != root@[i as int]);
            return None;
        }
        i = i + 1;
    }
    assert(path@.subrange(0, n as int) =~= root@);
    let c = path.get_char(n);
    if c == '/' || c == '\\' {
        Some(String::from_str(path.substring_char(n + 1, m)))
    } else {
        None
    }
}

/// The path that a content file is written to: the destination directory,
/// then the file's flat name.
pub fn destination_path(dest: &str, rel: &str) -> (r: String)
    ensures
        r@ == dest@ + seq!['/'] + flat_name(rel@),
{
    let mut out = String::from_str(dest);
    proof {
        reveal_strlit("/");
    }
    out.append("/");
    let name = flatten_path(rel);
    out.append(name.as_str());
    out
}

/// The first position of `name` in the reading order, if any.
pub fn position_of(order: &Vec<String>, name: &str) -> (r: Option<usize>)
    ensures
        r matches Some(i) ==> first_position(lines_view(*order), name@, i as int),
        r is None ==> forall|j: int| 0 <= j < order@.len() ==> lines_view(*order)[j] != name@,
{
    let ghost ov = lines_view(*order);
    let target = String::from_str(name);
    let mut i: usize = 0;
    while i < order.len()
        invariant
            ov == lines_view(*order),
            target@ == name@,
            i <= order.len(),
            forall|j: int| 0 <= j < i ==> ov[j] != name@,
        decreases order.len() - i,
    {
        assert(ov[i as int] == order@[i as int]@);
        if order[i] == target {
            return Some(i);
        }
        i = i + 1;
    }
    None
}

/// The navigation block of entry `i` of the reading order: a link back to
/// the entry before it (the home page for the first), and a link on to the
/// entry after it unless it is the last.
pub fn navigation_block(order: &Vec<String>, i: usize) -> (r: String)
    requires
        i < order.len(),
    ensures
        r@ == nav_block(lines_view(*order), i as int),
{
    let ghost ov = lines_view(*order);
    let mut out = String::from_str(NAV_OPEN);
    if i == 0 {
        out.append(HOME_PAGE);
    } else {
        assert(ov[i - 1] == order@[i - 1]@);
        out.append(strip_md(order[i - 1].as_str()));
    }
    out.append(NAV_PREV_CLOSE);
    let ghost with_prev = out@;
    if i + 1 < order.len() {
        assert(ov[i + 1] == order@[i + 1]@);
        out.append(NAV_NEXT_OPEN);
        out.append(strip_md(order[i + 1].as_str()));
        out.append(NAV_NEXT_CLOSE);
    }
    out.append(NAV_CLOSE);
    proof {
        let next_part = match next_target(ov, i as int) {
            Some(n) => NAV_NEXT_OPEN@ + n + NAV_NEXT_CLOSE@,
            None => Seq::empty(),
        };
        assert(out@ =~= with_prev + next_part + NAV_CLOSE@);
    }
    out
}

/// The navigation block for the file with the given flat name, if it has a
/// place in the reading order.
pub fn navigation_for(order: &Vec<String>, name: &str) -> (r: Option<String>)
    ensures
        r is None <==> !exists|i: int| first_position(lines_view(*order), name@, i),
        r matches Some(b) ==> exists|i: int| first_position(lines_view(*order), name@, i) && b@ == nav_block(lines_view(*order), i),
{
    match position_of(order, name) {
        Some(i) => Some(navigation_block(order, i)),
        None => None,
    }
}

/// `block`'s UTF-8 bytes followed by `data`.
pub fn prepend_text(block: &str, data: &Vec<u8>) -> (r: Vec<u8>)
    ensures
        r@ == encode_utf8(block@) + data@,
{
    let bytes = block.as_bytes();
    let mut out: Vec<u8> = Vec::new();
    let mut i: usize = 0;
    while i < bytes.len()
        invariant
            i <= bytes@.len(),
            bytes@ == encode_utf8(block@),
            out@ == bytes@.subrange(0, i as int),
        decreases bytes@.len() - i,
    {
        out.push(bytes[i]);
        assert(out@ =~= bytes@.subrange(0, i + 1));
        i = i + 1;
    }
    let mut j: usize = 0;
    while j < data.len()
        invariant
            j <= data@.len(),
            bytes@ == encode_utf8(block@),
            out@ == bytes@ + data@.subrange(0, j as int),
        decreases data@.len() - j,
    {
        out.push(data[j]);
        assert(out@ =~= bytes@ + data@.subrange(0, j + 1));
        j = j + 1;
    }
    assert(bytes@.subrange(0, bytes@.len() as int) =~= bytes@);
    assert(data@.subrange(0, data@.len() as int) =~= data@);
    out
}

/// The bytes written for a content file with the given flat name.
pub fn with_navigation(order: &Vec<String>, name: &str, data: &Vec<u8>) -> (r: Vec<u8>)
    ensures
        r@ == decorated(lines_view(*order), name@, data@),
{
    match navigation_for(order, name) {
        Some(block) => {
            let r = prepend_text(block.as_str(), data);
            proof {
                let ov = lines_view(*order);
                let i = choose|i: int| first_position(ov, name@, i) && block@ == nav_block(ov, i);
                let k = choose|k: int| first_position(ov, name@, k);
                assert(i == k) by {
                    if i < k {
                        assert(ov[i] != name@);
                    } else if k < i {
                        assert(ov[k] != name@);
                    }
                }
            }
            r
        },
        None => data.clone(),
    }
}

/// The first entry of the reading order points back to the home page and on
/// to the second entry where there is one; the last entry has no link on.
pub proof fn law_boundary_navigation(order: Seq<Seq<char>>)
    requires
        order.len() > 0,
    ensures
        nav_block(order, 0) == nav_markup(HOME_PAGE@, if order.len() > 1 { Some(without_md(order[1])) } else { None }),
        nav_block(order, order.len() - 1) == nav_markup(previous_target(order, order.len() - 1), None),
{
}

} // verus!
