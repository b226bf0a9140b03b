//! Parsing the `Link` header with which the remote side announces the pages of a list.
use vstd::prelude::*;

verus! {

#[derive(Clone, Copy, Debug, PartialEq, Eq, Structural)]
pub enum LinkType {
    CURRENT,
    NEXT,
    FIRST,
    LAST,
}

/// One entry of the header: `<url>; rel="type"`.
#[derive(Clone, Copy, Debug)]
pub struct Link<'a> {
    pub url: &'a str,
    pub query: &'a str,
    pub type_: LinkType,
    pub current: bool,
}

pub struct LinkView {
    pub url: Seq<char>,
    pub query: Seq<char>,
    pub type_: LinkType,
    pub current: bool,
}

impl<'a> View for Link<'a> {
    type V = LinkView;

    open spec fn view(&self) -> LinkView {
        LinkView { url: self.url@, query: self.query@, type_: self.type_, current: self.current }
    }
}

/// All entries of the header, each marked as current where it asks for the current page.
pub struct Links<'a> {
    pub raw: &'a str,
    pub links: Vec<Link<'a>>,
}

/// The index of the first `c` in `s`, or -1.
pub open spec fn first_index(s: Seq<char>, c: char) -> int
    decreases s.len(),
{
    if s.len() == 0 {
        -1
    } else if first_index(s.drop_last(), c) >= 0 {
        first_index(s.drop_last(), c)
    } else if s.last() == c {
        s.len() - 1
    } else {
        -1
    }
}

/// The index of the last `c` in `s`, or -1.
pub open spec fn last_index(s: Seq<char>, c: char) -> int
    decreases s.len(),
{
    if s.len() == 0 {
        -1
    } else if s.last() == c {
        s.len() - 1
    } else {
        last_index(s.drop_last(), c)
    }
}

/// What lies between the first `left` and the last `right` of `s`, where that is not empty.
pub open spec fn surrounded(s: Seq<char>, left: char, right: char) -> Option<Seq<char>> {
    let start = first_index(s, left) + 1;
    let end = last_index(s, right);
    if first_index(s, left) < 0 || end < 0 || end <= start {
        None
    } else {
        Some(s.subrange(start, end))
    }
}

/// What follows the last `?` of `url`; empty where there is none.
pub open spec fn query_of(url: Seq<char>) -> Seq<char> {
    if last_index(url, '?') < 0 {
        Seq::empty()
    } else {
        url.subrange(last_index(url, '?') + 1, url.len() as int)
    }
}

/// The first index from `i` on where `p` occurs in `s`, or -1.
pub open spec fn find_from(s: Seq<char>, p: Seq<char>, i: int) -> int
    decreases s.len() + 1 - i,
{
    if i < 0 || i + p.len() > s.len() {
        -1
    } else if s.subrange(i, i + p.len()) == p {
        i
    } else {
        find_from(s, p, i + 1)
    }
}

pub open spec fn rel_marker() -> Seq<char> {
    seq![';', ' ', 'r', 'e', 'l', '=']
}

pub open spec fn link_type_of(s: Seq<char>) -> Option<LinkType> {
    if s == seq!['c', 'u', 'r', 'r', 'e', 'n', 't'] {
        Some(LinkType::CURRENT)
    } else if s == seq!['n', 'e', 'x', 't'] {
        Some(LinkType::NEXT)
    } else if s == seq!['f', 'i', 'r', 's', 't'] {
        Some(LinkType::FIRST)
    } else if s == seq!['l', 'a', 's', 't'] {
        Some(LinkType::LAST)
    } else {
        None
    }
}

/// The entry `s`: the address between `<` and `>` before the first `; rel=`, and the type
/// between quotes after it.
pub open spec fn link_of(s: Seq<char>) -> Option<LinkView> {
    let middle = find_from(s, rel_marker(), 0);
    if middle < 0 {
        None
    } else {
        match surrounded(s.subrange(0, middle), '<', '>') {
            None => None,
            Some(url) => match surrounded(s.subrange(middle, s.len() as int), '"', '"') {
                None => None,
                Some(t) => match link_type_of(t) {
                    None => None,
                    Some(type_) => Some(
                        LinkView { url, query: query_of(url), type_, current: false },
                    ),
                },
            },
        }
    }
}

/// The pieces of `s` between the separators `c`; an empty `s` is one empty piece.
pub open spec fn split_on(s: Seq<char>, c: char) -> Seq<Seq<char>>
    decreases s.len(),
{
    if s.len() == 0 {
        seq![Seq::empty()]
    } else {
        let r = split_on(s.drop_last(), c);
        if s.last() == c {
            r.push(Seq::empty())
        } else {
            r.update(r.len() - 1, r.last().push(s.last()))
        }
    }
}

/// Each piece parsed as an entry; `None` where any of them fails.
pub open spec fn links_of_pieces(pieces: Seq<Seq<char>>) -> Option<Seq<LinkView>>
    decreases pieces.len(),
{
    if pieces.len() == 0 {
        Some(Seq::empty())
    } else {
        match links_of_pieces(pieces.drop_last()) {
            None => None,
            Some(ls) => match link_of(pieces.last()) {
                None => None,
                Some(l) => Some(ls.push(l)),
            },
        }
    }
}

/// The query of the first entry of type `CURRENT`.
pub open spec fn current_query(ls: Seq<LinkView>) -> Option<Seq<char>>
    decreases ls.len(),
{
    if ls.len() == 0 {
        None
    } else {
        match current_query(ls.drop_last()) {
            Some(q) => Some(q),
            None => if ls.last().type_ == LinkType::CURRENT {
                Some(ls.last().query)
            } else {
                None
            },
        }
    }
}

/// The header `raw` parsed; where an entry asks for the current page, each entry with the
/// same query is marked as current and the others are not.
pub open spec fn links_of(raw: Seq<char>) -> Option<Seq<LinkView>> {
    match links_of_pieces(split_on(raw, ',')) {
        None => None,
        Some(ls) => Some(
            match current_query(ls) {
                None => ls,
                Some(q) => ls.map_values(|l: LinkView| LinkView { current: l.query == q, ..l }),
            },
        ),
    }
}

fn str_eq(a: &str, b: &str) -> (r: bool)
    ensures
        r == (a@ == b@),
{
    let n = a.unicode_len();
    if n != b.unicode_len() {
        return false;
    }
    let mut i: usize = 0;
    while i < n
        invariant
            n == a@.len() == b@.len(),
            i <= n,
            a@.take(i as int) == b@.take(i as int),
        decreases n - i,
    {
        if a.get_char(i) != b.get_char(i) {
            assert(a@[i as int] != b@[i as int]);
            return false;
        }
        assert(a@.take(i + 1) =~= a@.take(i as int).push(a@[i as int]));
        assert(b@.take(i + 1) =~= b@.take(i as int).push(b@[i as int]));
        i = i + 1;
    }
    assert(a@ =~= a@.take(n as int));
    assert(b@ =~= b@.take(n as int));
    true
}

fn find_char(s: &str, c: char) -> (r: Option<usize>)
    ensures
        match r {
            Some(i) => i as int == first_index(s@, c) && i < s@.len(),
            None => first_index(s@, c) < 0,
        },
        s@.len() <= usize::MAX,
{
    let n = s.unicode_len();
    let mut i: usize = 0;
    while i < n
        invariant
            n == s@.len(),
            i <= n,
            first_index(s@.take(i as int), c) < 0,
        decreases n - i,
    {
        assert(s@.take(i + 1).drop_last() =~= s@.take(i as int));
        if s.get_char(i) == c {
            proof {
                lemma_first_index_prefix(s@, c, i + 1);
            }
            return Some(i);
        }
        i = i + 1;
    }
    assert(s@.take(n as int) =~= s@);
    None
}

/// The first index of `c` in a prefix is the first in the whole, once it is found.
proof fn lemma_first_index_prefix(s: Seq<char>, c: char, k: int)
    requires
        0 <= k <= s.len(),
        first_index(s.take(k), c) >= 0,
    ensures
        first_index(s, c) == first_index(s.take(k), c),
    decreases s.len() - k,
{
    if k < s.len() {
        assert(s.take(k + 1).drop_last() =~= s.take(k));
        lemma_first_index_prefix(s, c, k + 1);
    } else {
        assert(s.take(k) =~= s);
    }
}

fn rfind_char(s: &str, c: char) -> (r: Option<usize>)
    ensures
        match r {
            Some(i) => i as int == last_index(s@, c),
            None => last_index(s@, c) < 0,
        },
{
    let n = s.unicode_len();
    let mut i: usize = n;
    assert(s@.take(n as int) =~= s@);
    while i > 0
        invariant
            n == s@.len(),
            i <= n,
            last_index(s@, c) == last_index(s@.take(i as int), c),
        decreases i,
    {
        assert(s@.take(i as int).drop_last() =~= s@.take(i - 1));
        if s.get_char(i - 1) == c {
            return Some(i - 1);
        }
        i = i - 1;
    }
    None
}

/// What lies between the first `left` and the last `right` of `s`, where that is not empty.
pub fn surrounded_by<'a>(s: &'a str, left: char, right: char) -> (r: Option<&'a str>)
    ensures
        match r {
            Some(x) => surrounded(s@, left, right) == Some(x@),
            None => surrounded(s@, left, right) is None,
        },
{
    proof {
        assert(s@.take(s@.len() as int) =~= s@);
    }
    let start = match find_char(s, left) {
        Some(i) => i + 1,
        None => return None,
    };
    let end = match rfind_char(s, right) {
        Some(i) => i,
        None => return None,
    };
    if end <= start {
        return None;
    }
    proof {
        lemma_last_index_bounds(s@, right);
    }
    Some(s.substring_char(start, end))
}

proof fn lemma_last_index_bounds(s: Seq<char>, c: char)
    ensures
        -1 <= last_index(s, c) < s.len(),
    decreases s.len(),
{
    if s.len() > 0 {
        lemma_last_index_bounds(s.drop_last(), c);
    }
}

/// What follows the last `?` of `url`; empty where there is none.
pub fn query_from_url<'a>(url: &'a str) -> (r: &'a str)
    ensures
        r@ == query_of(url@),
{
    proof {
        assert(url@.take(url@.len() as int) =~= url@);
        lemma_last_index_bounds(url@, '?');
    }
    let n = url.unicode_len();
    match rfind_char(url, '?') {
        Some(i) => url.substring_char(i + 1, n),
        None => {
            let r = url.substring_char(n, n);
            assert(r@ =~= Seq::<char>::empty());
            r
        },
    }
}

impl LinkType {
    pub fn of(link_type: &str) -> (r: Option<LinkType>)
        ensures
            r == link_type_of(link_type@),
    {
        proof {
            reveal_strlit("current");
            reveal_strlit("next");
            reveal_strlit("first");
            reveal_strlit("last");
            assert("current"@ =~= seq!['c', 'u', 'r', 'r', 'e', 'n', 't']);
            assert("next"@ =~= seq!['n', 'e', 'x', 't']);
            assert("first"@ =~= seq!['f', 'i', 'r', 's', 't']);
            assert("last"@ =~= seq!['l', 'a', 's', 't']);
        }
        if str_eq(link_type, "current") {
            Some(LinkType::CURRENT)
        } else if str_eq(link_type, "next") {
            Some(LinkType::NEXT)
        } else if str_eq(link_type, "first") {
            Some(LinkType::FIRST)
        } else if str_eq(link_type, "last") {
            Some(LinkType::LAST)
        } else {
            None
        }
    }
}

pub open spec fn view_links(v: Seq<Link>) -> Seq<LinkView> {
    v.map_values(|l: Link| l@)
}

/// The first index where `p` occurs in `s`.
fn find_str(s: &str, p: &str) -> (r: Option<usize>)
    ensures
        match r {
            Some(i) => i as int == find_from(s@, p@, 0) && i + p@.len() <= s@.len(),
            None => find_from(s@, p@, 0) < 0,
        },
        s@.len() <= usize::MAX,
{
    let n = s.unicode_len();
    let m = p.unicode_len();
    if m > n {
        return None;
    }
    let mut i: usize = 0;
    while i <= n - m
        invariant
            n == s@.len(),
            m == p@.len(),
            m <= n,
            i <= n - m,
            find_from(s@, p@, 0) == find_from(s@, p@, i as int),
        decreases n - m - i,
    {
        if str_eq(s.substring_char(i, i + m), p) {
            return Some(i);
        }
        if i == n - m {
            assert(find_from(s@, p@, i + 1) == -1);
            return None;
        }
        i = i + 1;
    }
    None
}

impl<'a> Link<'a> {
    /// Parses one entry of the header.
    pub fn of(link: &'a str) -> (r: Option<Link<'a>>)
        ensures
            match r {
                Some(l) => link_of(link@) == Some(l@),
                None => link_of(link@) is None,
            },
    {
        proof {
            reveal_strlit("; rel=");
            assert("; rel="@ =~= rel_marker());
        }
        let middle = match find_str(link, "; rel=") {
            Some(m) => m,
            None => return None,
        };
        let n = link.unicode_len();
        let front = link.substring_char(0, middle);
        let back = link.substring_char(middle, n);
        let url = match surrounded_by(front, '<', '>') {
            Some(u) => u,
            None => return None,
        };
        let t = match surrounded_by(back, '"', '"') {
            Some(t) => t,
            None => return None,
        };
        let type_ = match LinkType::of(t) {
            Some(t) => t,
            None => return None,
        };
        Some(Link { url, query: query_from_url(url), type_, current: false })
    }
}

impl<'a> Links<'a> {
    /// Parses the header `raw`: its entries, separated by commas, in order. Where an entry
    /// asks for the current page, each entry with the same query is marked as current.
    pub fn of(raw: &'a str) -> (r: Option<Links<'a>>)
        ensures
            match r {
                Some(x) => links_of(raw@) == Some(view_links(x.links@)) && x.raw == raw,
                None => links_of(raw@) is None,
            },
    {
        let n = raw.unicode_len();
        let ghost s = raw@;
        let mut links: Vec<Link<'a>> = Vec::new();
        let mut start: usize = 0;
        let ghost mut done: Seq<Seq<char>> = Seq::empty();
        let mut i: usize = 0;
        assert(s.take(0) =~= Seq::<char>::empty());
        assert(s.subrange(0, 0) =~= Seq::<char>::empty());
        while i < n
            invariant
                n == s.len(),
                s == raw@,
                start <= i <= n,
                split_on(s.take(i as int), ',') == done.push(s.subrange(start as int, i as int)),
                links_of_pieces(done) == Some(view_links(links@)),
            decreases n - i,
        {
            assert(s.take(i + 1).drop_last() =~= s.take(i as int));
            assert(s.take(i + 1).last() == s[i as int]);
            let c = raw.get_char(i);
            let ghost before = split_on(s.take(i as int), ',');
            if c == ',' {
                assert(split_on(s.take(i + 1), ',') == before.push(Seq::<char>::empty()));
                let piece = raw.substring_char(start, i);
                let link = match Link::of(piece) {
                    Some(l) => l,
                    None => {
                        assert(done.push(piece@).drop_last() =~= done);
                        assert(links_of_pieces(done.push(piece@)) is None);
                        assert(split_on(s.take(i + 1), ',').drop_last() =~= done.push(piece@));
                        proof {
                            lemma_pieces_fail(split_on(s, ','), s, i as int + 1, done.push(piece@));
                        }
                        return None;
                    },
                };
                let ghost ls = links@;
                links.push(link);
                proof {
                    assert(done.push(piece@).drop_last() =~= done);
                    assert(view_links(links@) =~= view_links(ls).push(link@));
                    done = done.push(piece@);
                    assert(s.subrange(i + 1, i + 1) =~= Seq::<char>::empty());
                }
                start = i + 1;
            } else {
                proof {
                    assert(split_on(s.take(i + 1), ',') == before.update(
                        before.len() - 1,
                        before.last().push(c),
                    ));
                    assert(s.subrange(start as int, i + 1) =~= s.subrange(start as int, i as int).push(
                        c,
                    ));
                    assert(done.push(s.subrange(start as int, i as int)).update(
                        done.len() as int,
                        s.subrange(start as int, i + 1),
                    ) =~= done.push(s.subrange(start as int, i + 1)));
                }
            }
            i = i + 1;
        }
        assert(s.take(n as int) =~= s);
        let piece = raw.substring_char(start, n);
        let link = match Link::of(piece) {
            Some(l) => l,
            None => return None,
        };
        let ghost ls = links@;
        links.push(link);
        assert(view_links(links@) =~= view_links(ls).push(link@));
        assert(done.push(piece@).drop_last() =~= done);
        let ghost parsed = view_links(links@);
        assert(split_on(s, ',') == done.push(piece@));
        assert(links_of_pieces(split_on(s, ',')) == Some(parsed));
        let count = links.len();
        let mut current: Option<&'a str> = None;
        let mut k: usize = 0;
        while k < count && current.is_none()
            invariant
                count == links.len(),
                k <= count,
                parsed == view_links(links@),
                current is None ==> current_query(parsed.take(k as int)) is None,
                current matches Some(q) ==> current_query(parsed) == Some(q@),
            decreases count - k,
        {
            assert(parsed.take(k + 1).drop_last() =~= parsed.take(k as int));
            if links[k].type_ == LinkType::CURRENT {
                proof {
                    assert(parsed.take(k + 1).last() == parsed[k as int]);
                    assert(parsed[k as int] == links@[k as int]@);
                    assert(current_query(parsed.take(k + 1)) == Some(parsed[k as int].query));
                    lemma_current_query_prefix(parsed, k as int + 1);
                }
                current = Some(links[k].query);
            }
            k = k + 1;
        }
        match current {
            None => {
                assert(parsed.take(count as int) =~= parsed);
                assert(current_query(parsed) is None);
                Some(Links { raw, links })
            },
            Some(q) => {
                let mut marked: Vec<Link<'a>> = Vec::new();
                for j in 0..count
                    invariant
                        count == links.len(),
                        parsed == view_links(links@),
                        marked.len() == j,
                        forall|x: int|
                            0 <= x < j ==> #[trigger] marked@[x]@ == (LinkView {
                                current: parsed[x].query == q@,
                                ..parsed[x]
                            }),
                {
                    let mut l = links[j];
                    l.current = str_eq(l.query, q);
                    marked.push(l);
                }
                proof {
                    let want = parsed.map_values(
                        |l: LinkView| LinkView { current: l.query == q@, ..l },
                    );
                    assert(view_links(marked@) =~= want);
                }
                Some(Links { raw, links: marked })
            },
        }
    }

    /// The entries, in order.
    pub fn iter(&self) -> (r: &[Link<'a>])
        ensures
            r@ == self.links@,
    {
        self.links.as_slice()
    }
}

impl<'a> Default for Links<'a> {
    /// No entries.
    fn default() -> (r: Links<'a>)
        ensures
            r.raw@.len() == 0,
            r.links@.len() == 0,
    {
        proof {
            reveal_strlit("");
        }
        Links { raw: "", links: Vec::new() }
    }
}

/// Where the pieces split off so far fail to parse, so does the whole header.
proof fn lemma_pieces_fail(all: Seq<Seq<char>>, s: Seq<char>, k: int, failed: Seq<Seq<char>>)
    requires
        0 <= k <= s.len(),
        all == split_on(s, ','),
        links_of_pieces(failed) is None,
        split_on(s.take(k), ',').drop_last() == failed,
        split_on(s.take(k), ',').len() == failed.len() + 1,
    ensures
        links_of_pieces(all) is None,
    decreases s.len() - k,
{
    if k < s.len() {
        let t = split_on(s.take(k + 1), ',');
        assert(s.take(k + 1).drop_last() =~= s.take(k));
        assert(s.take(k + 1).last() == s[k]);
        if s[k] == ',' {
            assert(t.drop_last() =~= split_on(s.take(k), ','));
            lemma_pieces_prefix_fail(split_on(s.take(k), ','), failed);
            lemma_pieces_fail(all, s, k + 1, split_on(s.take(k), ','));
        } else {
            assert(t.drop_last() =~= failed);
            lemma_pieces_fail(all, s, k + 1, failed);
        }
    } else {
        assert(s.take(k) =~= s);
        lemma_pieces_prefix_fail(all, failed);
    }
}

/// A failure among the first pieces is a failure of all of them.
proof fn lemma_pieces_prefix_fail(all: Seq<Seq<char>>, failed: Seq<Seq<char>>)
    requires
        links_of_pieces(failed) is None,
        failed.len() <= all.len(),
        all.take(failed.len() as int) == failed,
    ensures
        links_of_pieces(all) is None,
    decreases all.len(),
{
    if all.len() > failed.len() {
        assert(all.drop_last().take(failed.len() as int) =~= failed);
        lemma_pieces_prefix_fail(all.drop_last(), failed);
    } else {
        assert(all =~= failed);
    }
}

proof fn lemma_current_query_prefix(ls: Seq<LinkView>, k: int)
    requires
        0 <= k <= ls.len(),
        current_query(ls.take(k)) is Some,
    ensures
        current_query(ls) == current_query(ls.take(k)),
    decreases ls.len() - k,
{
    if k < ls.len() {
        assert(ls.take(k + 1).drop_last() =~= ls.take(k));
        lemma_current_query_prefix(ls, k + 1);
    } else {
        assert(ls.take(k) =~= ls);
    }
}

} // verus!
