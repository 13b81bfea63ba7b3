//! Citation extraction: walks a parsed document, collects one citation per
//! top-level bullet item (body text, breadcrumb path of enclosing headings,
//! and `key: value` metadata from nested bullet lists), and renders a
//! citation to the text stored for it.

use vstd::prelude::*;

use crate::chars::{chars_of, push_char, string_from_chars, trim_chars, trim_spec};
use crate::normalize::strip_prefix_spec;
use crate::text::{flatten_nodes_spec, ListItem, TextExtractor, WikiNode};

verus! {

/// Whether `s` holds a colon.
pub open spec fn has_colon(s: Seq<char>) -> bool {
    exists|i: int| 0 <= i < s.len() && s[i] == ':'
}

/// Everything before the first colon of `s` (all of `s` if no colon stands
/// in it).
pub open spec fn take_to_colon_spec(s: Seq<char>) -> Seq<char>
    decreases s.len(),
{
    if s.len() == 0 {
        s
    } else if s[0] == ':' {
        Seq::empty()
    } else {
        seq![s[0]] + take_to_colon_spec(s.drop_first())
    }
}

/// Cutting at the first colon is what `take_to_colon_spec` keeps.
proof fn lemma_take_to_colon_at(s: Seq<char>, at: int)
    requires
        0 <= at < s.len(),
        forall|j: int| 0 <= j < at ==> (#[trigger] s[j]) != ':',
        s[at] == ':',
    ensures
        take_to_colon_spec(s) === s.take(at),
    decreases at,
{
    if at == 0 {
        assert(s.take(0) =~= Seq::<char>::empty());
    } else {
        lemma_take_to_colon_at(s.drop_first(), at - 1);
        assert(s.drop_first().take(at - 1) =~= s.take(at).drop_first());
        assert(seq![s[0]] + s.take(at).drop_first() =~= s.take(at));
    }
}

/// One key/value metadata record of a citation.
pub struct MetaData {
    pub key: String,
    pub value: String,
    pub links: Vec<String>,
}

/// The mathematical content of a metadata record.
#[verifier::ext_equal]
pub struct MetaDataView {
    pub key: Seq<char>,
    pub value: Seq<char>,
    pub links: Seq<Seq<char>>,
}

impl View for MetaData {
    type V = MetaDataView;

    open spec fn view(&self) -> MetaDataView {
        MetaDataView {
            key: self.key@,
            value: self.value@,
            links: Seq::new(self.links@.len(), |i: int| self.links@[i]@),
        }
    }
}

impl MetaData {
    /// A metadata record from its parts.
    pub fn new(key: String, value: String, links: Vec<String>) -> (r: MetaData)
        ensures
            r@.key === key@,
            r@.value === value@,
            r@.links === Seq::new(links@.len(), |i: int| links@[i]@),
    {
        MetaData { key, value, links }
    }
}

/// The metadata read from one bullet item's flattened text: a `key: value`
/// line splits at its first colon, the value trimmed; a line without a
/// colon yields nothing.
pub open spec fn meta_of_text(t: Seq<char>) -> Seq<MetaDataView> {
    if has_colon(t) {
        seq![
            MetaDataView {
                key: take_to_colon_spec(t),
                value: trim_spec(strip_prefix_spec(t)),
                links: Seq::empty(),
            },
        ]
    } else {
        Seq::empty()
    }
}

/// The metadata of a bullet list's items.
pub open spec fn metas_of_items(items: Seq<ListItem>) -> Seq<MetaDataView>
    decreases items,
{
    if items.len() == 0 {
        Seq::empty()
    } else {
        metas_of_items(items.drop_last()) + meta_of_text(
            flatten_nodes_spec(items.last().nodes@, true),
        )
    }
}

/// The metadata of a node sequence: every nested bullet list contributes
/// its items' `key: value` lines.
pub open spec fn metas_of_nodes(ns: Seq<WikiNode>) -> Seq<MetaDataView>
    decreases ns,
{
    if ns.len() == 0 {
        Seq::empty()
    } else {
        metas_of_nodes(ns.drop_last()) + (match ns.last() {
            WikiNode::UnorderedList { items } => metas_of_items(items@),
            _ => Seq::empty(),
        })
    }
}

/// Reads `key: value` metadata out of nested bullet lists.
#[derive(Default)]
pub struct MetaReader {
    pub meta: Vec<MetaData>,
}

impl MetaReader {
    /// The records read so far.
    pub open spec fn metas(self) -> Seq<MetaDataView> {
        Seq::new(self.meta@.len(), |i: int| self.meta@[i]@)
    }

    /// Reads the metadata of every nested bullet list of `items`.
    pub fn read(&mut self, items: &Vec<WikiNode>)
        ensures
            final(self).metas() === old(self).metas() + metas_of_nodes(items@),
    {
        let ghost pre = self.metas();
        let mut j: usize = 0;
        proof {
            assert(metas_of_nodes(items@.take(0)) =~= Seq::<MetaDataView>::empty());
            assert(pre + Seq::<MetaDataView>::empty() =~= pre);
        }
        while j < items.len()
            invariant
                0 <= j <= items@.len(),
                self.metas() === pre + metas_of_nodes(items@.take(j as int)),
            decreases items@.len() - j,
        {
            let ghost done = metas_of_nodes(items@.take(j as int));
            proof {
                assert(items@.take(j + 1).drop_last() =~= items@.take(j as int));
            }
            match &items[j] {
                WikiNode::UnorderedList { items: sub } => {
                    let ghost mid = self.metas();
                    let mut k: usize = 0;
                    proof {
                        assert(metas_of_items(sub@.take(0)) =~= Seq::<MetaDataView>::empty());
                        assert(mid + Seq::<MetaDataView>::empty() =~= mid);
                    }
                    while k < sub.len()
                        invariant
                            0 <= k <= sub@.len(),
                            self.metas() === mid + metas_of_items(sub@.take(k as int)),
                        decreases sub@.len() - k,
                    {
                        proof {
                            assert(sub@.take(k + 1).drop_last() =~= sub@.take(k as int));
                        }
                        let mut extr = TextExtractor::new();
                        extr.extract_item_text(&sub[k]);
                        let text = extr.result();
                        let ghost t = flatten_nodes_spec(sub@[k as int].nodes@, true);
                        proof {
                            assert(Seq::<char>::empty() + t =~= t);
                            assert(text@ === t);
                        }
                        let cs = chars_of(text.as_str());
                        let n = cs.len();
                        let mut at: usize = 0;
                        while at < n && cs[at] != ':'
                            invariant
                                0 <= at <= n,
                                n == cs@.len(),
                                forall|x: int| 0 <= x < at ==> (#[trigger] cs@[x]) != ':',
                            decreases n - at,
                        {
                            at += 1;
                        }
                        if at < n {
                            proof {
                                lemma_take_to_colon_at(cs@, at as int);
                                crate::normalize::lemma_strip_prefix_at(cs@, at as int);
                            }
                            let mut key_chars: Vec<char> = Vec::new();
                            let mut x: usize = 0;
                            while x < at
                                invariant
                                    0 <= x <= at <= cs@.len(),
                                    key_chars@ === cs@.take(x as int),
                                decreases at - x,
                            {
                                key_chars.push(cs[x]);
                                proof {
                                    assert(cs@.take(x as int).push(cs@[x as int]) =~= cs@.take(
                                        x + 1,
                                    ));
                                }
                                x += 1;
                            }
                            let mut val_chars: Vec<char> = Vec::new();
                            let mut y: usize = at + 1;
                            while y < n
                                invariant
                                    at < y <= n,
                                    n == cs@.len(),
                                    val_chars@ === cs@.subrange(at + 1, y as int),
                                decreases n - y,
                            {
                                val_chars.push(cs[y]);
                                proof {
                                    assert(cs@.subrange(at + 1, y as int).push(cs@[y as int])
                                        =~= cs@.subrange(at + 1, y + 1));
                                }
                                y += 1;
                            }
                            let trimmed = trim_chars(&val_chars);
                            let key = string_from_chars(&key_chars);
                            let value = string_from_chars(&trimmed);
                            let links: Vec<String> = Vec::new();
                            let ghost mv = MetaDataView {
                                key: key@,
                                value: value@,
                                links: Seq::empty(),
                            };
                            let rec = MetaData::new(key, value, links);
                            proof {
                                assert(rec@ =~= mv);
                            }
                            self.meta.push(rec);
                            proof {
                                assert(meta_of_text(t) =~= seq![mv]);
                                assert(self.metas() =~= (mid + metas_of_items(
                                    sub@.take(k as int),
                                )).push(rec@));
                                assert(self.metas() =~= (mid + metas_of_items(
                                    sub@.take(k as int),
                                )).push(mv));
                                assert((mid + metas_of_items(sub@.take(k as int))).push(mv)
                                    =~= mid + (metas_of_items(sub@.take(k as int)) + seq![mv]));
                            }
                        } else {
                            proof {
                                assert(!has_colon(t));
                                assert(meta_of_text(t) =~= Seq::<MetaDataView>::empty());
                                assert(metas_of_items(sub@.take(k as int)) + Seq::<
                                    MetaDataView,
                                >::empty() =~= metas_of_items(sub@.take(k as int)));
                            }
                        }
                        k += 1;
                    }
                    proof {
                        assert(sub@.take(sub@.len() as int) =~= sub@);
                        assert(mid + metas_of_items(sub@) =~= pre + (done + metas_of_items(
                            sub@,
                        )));
                    }
                },
                _ => {
                    proof {
                        assert(done + Seq::<MetaDataView>::empty() =~= done);
                    }
                },
            }
            j += 1;
        }
        proof {
            assert(items@.take(items@.len() as int) =~= items@);
        }
    }
}

/// One citation: its body text, the breadcrumb path of enclosing headings,
/// and its metadata records.
pub struct Cite {
    pub text: String,
    pub sections: Vec<String>,
    pub meta: Vec<MetaData>,
}

/// The mathematical content of a citation.
#[verifier::ext_equal]
pub struct CiteView {
    pub text: Seq<char>,
    pub sections: Seq<Seq<char>>,
    pub meta: Seq<MetaDataView>,
}

impl View for Cite {
    type V = CiteView;

    open spec fn view(&self) -> CiteView {
        CiteView {
            text: self.text@,
            sections: Seq::new(self.sections@.len(), |i: int| self.sections@[i]@),
            meta: Seq::new(self.meta@.len(), |i: int| self.meta@[i]@),
        }
    }
}

impl Cite {
    /// A citation with the given body and no sections or metadata yet.
    pub fn new(text: String) -> (r: Cite)
        ensures
            r@.text === text@,
            r@.sections === Seq::<Seq<char>>::empty(),
            r@.meta === Seq::<MetaDataView>::empty(),
    {
        let r = Cite { text, sections: Vec::new(), meta: Vec::new() };
        proof {
            assert(r@.sections =~= Seq::<Seq<char>>::empty());
            assert(r@.meta =~= Seq::<MetaDataView>::empty());
        }
        r
    }
}

/// The collected citations of a document.
#[derive(Default)]
pub struct Cites {
    pub cites: Vec<Cite>,
}

impl View for Cites {
    type V = Seq<CiteView>;

    open spec fn view(&self) -> Seq<CiteView> {
        Seq::new(self.cites@.len(), |i: int| self.cites@[i]@)
    }
}

/// The breadcrumb stack: the enclosing section headings of the position a
/// scan has reached, seeded with the document's own title.
pub struct Breadcrumbs {
    pub stack: Vec<String>,
}

/// The breadcrumb stack after a heading of the given level: the stack is
/// padded with empty names or truncated to exactly `level` entries, and the
/// last entry becomes the heading's text.
pub open spec fn update_stack(stack: Seq<Seq<char>>, level: u8, text: Seq<char>) -> Seq<
    Seq<char>,
> {
    if level == 0 {
        stack
    } else {
        let base = if stack.len() < level as int {
            stack + Seq::new((level as int - stack.len()) as nat, |i: int| Seq::<char>::empty())
        } else {
            stack.take(level as int)
        };
        base.update(level as int - 1, text)
    }
}

impl Breadcrumbs {
    /// The stack's contents.
    pub open spec fn crumbs(self) -> Seq<Seq<char>> {
        Seq::new(self.stack@.len(), |i: int| self.stack@[i]@)
    }

    /// A stack seeded with the document's title.
    pub fn new(title: &str) -> (r: Breadcrumbs)
        ensures
            r.crumbs() === seq![title@],
    {
        let mut stack: Vec<String> = Vec::new();
        stack.push(title.to_owned());
        let r = Breadcrumbs { stack };
        proof {
            assert(r.crumbs() =~= seq![title@]);
        }
        r
    }

    /// Records a heading of the given level.
    pub fn update(&mut self, level: u8, text: String)
        requires
            level >= 1,
        ensures
            final(self).crumbs() === update_stack(old(self).crumbs(), level, text@),
    {
        let ghost pre = self.crumbs();
        let lvl = level as usize;
        while self.stack.len() < lvl
            invariant
                self.stack@.len() >= pre.len(),
                forall|i: int|
                    0 <= i < self.stack@.len() ==> (#[trigger] self.stack@[i])@ === (if i
                        < pre.len() {
                        pre[i]
                    } else {
                        Seq::<char>::empty()
                    }),
            decreases lvl - self.stack@.len(),
        {
            self.stack.push(String::new());
        }
        while self.stack.len() > lvl
            invariant
                self.stack@.len() >= lvl,
                forall|i: int|
                    0 <= i < self.stack@.len() ==> (#[trigger] self.stack@[i])@ === (if i
                        < pre.len() {
                        pre[i]
                    } else {
                        Seq::<char>::empty()
                    }),
            decreases self.stack@.len(),
        {
            let _ = self.stack.pop();
        }
        let last = self.stack.len() - 1;
        self.stack[last] = text;
        proof {
            assert(self.crumbs() =~= update_stack(pre, level, text@));
        }
    }
}

/// The citations of a bullet list's items under the given breadcrumb stack:
/// one per item, its body the item flattened without descending into nested
/// lists, its metadata read from those nested lists.
pub open spec fn cites_of_items(items: Seq<ListItem>, stack: Seq<Seq<char>>) -> Seq<CiteView>
    decreases items,
{
    if items.len() == 0 {
        Seq::empty()
    } else {
        cites_of_items(items.drop_last(), stack) + seq![
            CiteView {
                text: flatten_nodes_spec(items.last().nodes@, false),
                sections: stack,
                meta: metas_of_nodes(items.last().nodes@),
            },
        ]
    }
}

/// The citations and final breadcrumb stack of a document scan: each
/// top-level bullet list yields citations under the current stack, each
/// top-level heading reshapes the stack, everything else is passed over.
pub open spec fn cites_fold(ns: Seq<WikiNode>, stack: Seq<Seq<char>>) -> (
    Seq<CiteView>,
    Seq<Seq<char>>,
)
    decreases ns.len(),
{
    if ns.len() == 0 {
        (Seq::empty(), stack)
    } else {
        match ns[0] {
            WikiNode::UnorderedList { items } => {
                let rest = cites_fold(ns.drop_first(), stack);
                (cites_of_items(items@, stack) + rest.0, rest.1)
            },
            WikiNode::Heading { level, nodes } => cites_fold(
                ns.drop_first(),
                update_stack(stack, level, flatten_nodes_spec(nodes@, true)),
            ),
            _ => cites_fold(ns.drop_first(), stack),
        }
    }
}

/// A copy of a list of strings.
fn copy_strings(src: &Vec<String>) -> (r: Vec<String>)
    ensures
        r@ === src@,
{
    let mut r: Vec<String> = Vec::new();
    let mut i: usize = 0;
    while i < src.len()
        invariant
            0 <= i <= src@.len(),
            r@ === src@.take(i as int),
        decreases src@.len() - i,
    {
        r.push(src[i].clone());
        proof {
            assert(src@.take(i as int).push(src@[i as int]) =~= src@.take(i + 1));
        }
        i += 1;
    }
    proof {
        assert(src@.take(src@.len() as int) =~= src@);
    }
    r
}

impl Cites {
    /// Scans a parsed document and appends one citation per top-level
    /// bullet item, with the breadcrumb stack seeded by the document's
    /// title. Heading levels below one do not occur in parser output.
    pub fn extract_cites(&mut self, parsed: &Vec<WikiNode>, title: &str)
        requires
            forall|i: int|
                0 <= i < parsed@.len() ==> ((#[trigger] parsed@[i]) matches WikiNode::Heading {
                    level,
                    ..
                } ==> level >= 1),
        ensures
            final(self)@ === old(self)@ + cites_fold(parsed@, seq![title@]).0,
    {
        let ghost pre = self@;
        let ghost s0 = seq![title@];
        let mut breadcrumbs = Breadcrumbs::new(title);
        let mut j: usize = 0;
        proof {
            assert(parsed@.skip(0) =~= parsed@);
            assert(pre + Seq::<CiteView>::empty() =~= pre);
        }
        while j < parsed.len()
            invariant
                0 <= j <= parsed@.len(),
                forall|i: int|
                    0 <= i < parsed@.len() ==> ((#[trigger] parsed@[i])
                        matches WikiNode::Heading { level, .. } ==> level >= 1),
                pre + cites_fold(parsed@, s0).0 === self@ + cites_fold(
                    parsed@.skip(j as int),
                    breadcrumbs.crumbs(),
                ).0,
                cites_fold(parsed@, s0).1 === cites_fold(
                    parsed@.skip(j as int),
                    breadcrumbs.crumbs(),
                ).1,
            decreases parsed@.len() - j,
        {
            let ghost suffix = parsed@.skip(j as int);
            let ghost cur = breadcrumbs.crumbs();
            proof {
                assert(suffix[0] === parsed@[j as int]);
                assert(suffix.drop_first() =~= parsed@.skip(j + 1));
            }
            match &parsed[j] {
                WikiNode::UnorderedList { items } => {
                    let ghost base = self@;
                    let mut k: usize = 0;
                    proof {
                        assert(cites_of_items(items@.take(0), cur) =~= Seq::<CiteView>::empty());
                        assert(base + Seq::<CiteView>::empty() =~= base);
                    }
                    while k < items.len()
                        invariant
                            0 <= k <= items@.len(),
                            breadcrumbs.crumbs() === cur,
                            self@ === base + cites_of_items(items@.take(k as int), cur),
                        decreases items@.len() - k,
                    {
                        proof {
                            assert(items@.take(k + 1).drop_last() =~= items@.take(k as int));
                        }
                        let mut extr = TextExtractor::new();
                        extr.descend_lists = false;
                        extr.extract_item_text(&items[k]);
                        let body = extr.result();
                        let ghost t = flatten_nodes_spec(items@[k as int].nodes@, false);
                        proof {
                            assert(Seq::<char>::empty() + t =~= t);
                            assert(body@ === t);
                        }
                        let mut cite = Cite::new(body);
                        cite.sections = copy_strings(&breadcrumbs.stack);
                        let mut meta_reader = MetaReader { meta: Vec::new() };
                        proof {
                            assert(meta_reader.metas() =~= Seq::<MetaDataView>::empty());
                        }
                        meta_reader.read(&items[k].nodes);
                        cite.meta = meta_reader.meta;
                        let ghost cv = CiteView {
                            text: t,
                            sections: cur,
                            meta: metas_of_nodes(items@[k as int].nodes@),
                        };
                        proof {
                            assert(Seq::<MetaDataView>::empty() + metas_of_nodes(
                                items@[k as int].nodes@,
                            ) =~= metas_of_nodes(items@[k as int].nodes@));
                            assert(cite@ =~= cv);
                        }
                        self.cites.push(cite);
                        proof {
                            assert(self@ =~= (base + cites_of_items(
                                items@.take(k as int),
                                cur,
                            )).push(cv));
                            assert((base + cites_of_items(items@.take(k as int), cur)).push(cv)
                                =~= base + (cites_of_items(items@.take(k as int), cur) + seq![
                                cv,
                            ]));
                        }
                        k += 1;
                    }
                    proof {
                        assert(items@.take(items@.len() as int) =~= items@);
                        assert(base + cites_of_items(items@, cur) + cites_fold(
                            parsed@.skip(j + 1),
                            cur,
                        ).0 =~= base + (cites_of_items(items@, cur) + cites_fold(
                            parsed@.skip(j + 1),
                            cur,
                        ).0));
                    }
                },
                WikiNode::Heading { level, nodes } => {
                    let mut extr = TextExtractor::new();
                    extr.extract_nodes_text(nodes);
                    let heading = extr.result();
                    proof {
                        let ht = flatten_nodes_spec(nodes@, true);
                        assert(Seq::<char>::empty() + ht =~= ht);
                        assert(heading@ === ht);
                    }
                    breadcrumbs.update(*level, heading);
                },
                _ => {},
            }
            j += 1;
        }
        proof {
            assert(parsed@.skip(parsed@.len() as int) =~= Seq::<WikiNode>::empty());
            assert(self@ + Seq::<CiteView>::empty() =~= self@);
            assert(pre + cites_fold(parsed@, s0).0 =~= self@);
        }
    }
}

/// The sections of a citation joined with a separator, as they head its
/// rendered text.
pub open spec fn join_sections_spec(ss: Seq<Seq<char>>) -> Seq<char>
    decreases ss,
{
    if ss.len() == 0 {
        Seq::empty()
    } else if ss.len() == 1 {
        ss[0]
    } else {
        join_sections_spec(ss.drop_last()) + seq![' ', '/', ' '] + ss.last()
    }
}

/// One rendered metadata line.
pub open spec fn meta_line_spec(m: MetaDataView) -> Seq<char> {
    seq![' ', '*', ' '] + m.key + seq![':', ' '] + m.value + seq!['\n']
}

/// All rendered metadata lines.
pub open spec fn meta_lines_spec(ms: Seq<MetaDataView>) -> Seq<char>
    decreases ms,
{
    if ms.len() == 0 {
        Seq::empty()
    } else {
        meta_lines_spec(ms.drop_last()) + meta_line_spec(ms.last())
    }
}

/// The rendered text of a citation: the bracketed section path if any
/// sections stand on it, the body, and one line per metadata record.
pub open spec fn cite_render_spec(c: CiteView) -> Seq<char> {
    (if c.sections.len() > 0 {
        seq!['['] + join_sections_spec(c.sections) + seq![']', '\n']
    } else {
        Seq::empty()
    }) + c.text + seq!['\n'] + meta_lines_spec(c.meta)
}

impl Cite {
    /// Renders the citation to the text stored for it.
    pub fn render(&self) -> (r: String)
        ensures
            r@ === cite_render_spec(self@),
    {
        let mut r = String::new();
        if self.sections.len() > 0 {
            push_char(&mut r, '[');
            let mut i: usize = 0;
            while i < self.sections.len()
                invariant
                    0 < self.sections@.len(),
                    0 <= i <= self.sections@.len(),
                    i == 0 ==> r@ === seq!['['],
                    i > 0 ==> r@ === seq!['['] + join_sections_spec(
                        Seq::new(i as nat, |x: int| self.sections@[x]@),
                    ),
                decreases self.sections@.len() - i,
            {
                if i > 0 {
                    let sep = String::from_str(" / ");
                    proof {
                        reveal_strlit(" / ");
                    }
                    r.append(sep.as_str());
                }
                r.append(self.sections[i].as_str());
                proof {
                    let upto = Seq::new((i + 1) as nat, |x: int| self.sections@[x]@);
                    assert(upto.drop_last() =~= Seq::new(i as nat, |x: int| self.sections@[x]@));
                    if i > 0 {
                        assert(r@ =~= seq!['['] + join_sections_spec(upto));
                    } else {
                        assert(upto =~= seq![self.sections@[0]@]);
                        assert(r@ =~= seq!['['] + join_sections_spec(upto));
                    }
                }
                i += 1;
            }
            push_char(&mut r, ']');
            push_char(&mut r, '\n');
            proof {
                assert(Seq::new(self.sections@.len(), |x: int| self.sections@[x]@) =~= self@.sections);
                assert(r@ =~= seq!['['] + join_sections_spec(self@.sections) + seq![']', '\n']);
            }
        }
        let ghost head = r@;
        r.append(self.text.as_str());
        push_char(&mut r, '\n');
        let mut m: usize = 0;
        proof {
            assert(meta_lines_spec(Seq::<MetaDataView>::empty()) =~= Seq::<char>::empty());
            assert(r@ =~= head + self@.text + seq!['\n'] + meta_lines_spec(
                Seq::new(0nat, |x: int| self.meta@[x]@),
            ));
        }
        while m < self.meta.len()
            invariant
                0 <= m <= self.meta@.len(),
                r@ === head + self@.text + seq!['\n'] + meta_lines_spec(
                    Seq::new(m as nat, |x: int| self.meta@[x]@),
                ),
            decreases self.meta@.len() - m,
        {
            let star = String::from_str(" * ");
            let colon = String::from_str(": ");
            proof {
                reveal_strlit(" * ");
                reveal_strlit(": ");
            }
            r.append(star.as_str());
            r.append(self.meta[m].key.as_str());
            r.append(colon.as_str());
            r.append(self.meta[m].value.as_str());
            push_char(&mut r, '\n');
            proof {
                let upto = Seq::new((m + 1) as nat, |x: int| self.meta@[x]@);
                assert(upto.drop_last() =~= Seq::new(m as nat, |x: int| self.meta@[x]@));
                assert(upto.last() === self.meta@[m as int]@);
                assert(r@ =~= head + self@.text + seq!['\n'] + meta_lines_spec(upto));
            }
            m += 1;
        }
        proof {
            assert(Seq::new(self.meta@.len(), |x: int| self.meta@[x]@) =~= self@.meta);
            assert(r@ =~= cite_render_spec(self@));
        }
        r
    }
}

} // verus!
