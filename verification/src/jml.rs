use vstd::prelude::*;
use crate::text::{
    chars_of, string_from_chars, push_all, push_str, text_lines, lines_of, joined_with, join_with,
    has_prefix, starts_with_text, trim_start, trim_start_chars, trim, trim_chars, split_on,
    split_chars, views, is_text, trim_end, trim_end_chars, eq_ignore_case, eq_ignore_ascii_case,
};

verus! {

/// A list of patterns, as a JML pattern list holds them.
#[derive(Clone, Debug, PartialEq)]
pub struct PatternLibrary {
    pub title: Option<String>,
    pub info: Option<String>,
    pub records: Vec<PatternRecord>,
}

/// One line of a pattern list: what is shown, the notation and the pattern setting, with
/// animation preferences, information, tags and the pattern's own JML when there is one.
#[derive(Clone, Debug, PartialEq)]
pub struct PatternRecord {
    pub display: String,
    pub notation: Option<String>,
    pub config: Option<String>,
    pub animprefs: Option<String>,
    pub info: Option<String>,
    pub tags: Vec<String>,
    pub raw_pattern: Option<String>,
}

impl PatternRecord {
    /// A siteswap pattern with the given display text and setting.
    pub fn siteswap(display: &str, config: &str) -> (r: Self)
        ensures
            r.display@ == display@,
            r.notation matches Some(n) && n@ == "siteswap"@,
            r.config matches Some(c) && c@ == config@,
            r.animprefs is None,
            r.info is None,
            r.tags.len() == 0,
            r.raw_pattern is None,
    {
        Self {
            display: display.to_owned(),
            notation: Some("siteswap".to_owned()),
            config: Some(config.to_owned()),
            animprefs: None,
            info: None,
            tags: Vec::new(),
            raw_pattern: None,
        }
    }

    /// A record can be animated when it names a notation and has a setting or its own JML.
    pub open spec fn is_playable_spec(&self) -> bool {
        self.notation is Some && (self.config is Some || self.raw_pattern is Some)
    }

    pub fn is_playable(&self) -> (r: bool)
        ensures
            r == self.is_playable_spec(),
    {
        self.notation.is_some() && (self.config.is_some() || self.raw_pattern.is_some())
    }
}

/// A character as XML text writes it: `&`, `<`, `>`, `"` and `'` become entities.
pub open spec fn escaped_char(c: char) -> Seq<char> {
    if c == '&' {
        "&amp;"@
    } else if c == '<' {
        "&lt;"@
    } else if c == '>' {
        "&gt;"@
    } else if c == '"' {
        "&quot;"@
    } else if c == '\'' {
        "&apos;"@
    } else {
        seq![c]
    }
}

/// The text written as XML text or attribute value.
pub open spec fn xml_escaped(s: Seq<char>) -> Seq<char>
    decreases s.len(),
{
    if s.len() == 0 {
        Seq::empty()
    } else {
        xml_escaped(s.drop_last()) + escaped_char(s.last())
    }
}

/// XML text read back in one pass from the left: each of the five entities that
/// `escaped_char` writes stands for its character, everything else for itself.
pub open spec fn xml_unescaped(t: Seq<char>) -> Seq<char>
    decreases t.len(),
{
    if t.len() == 0 {
        Seq::empty()
    } else if t.len() >= 5 && has_prefix(t, "&amp;"@) {
        seq!['&'] + xml_unescaped(t.skip(5))
    } else if t.len() >= 4 && has_prefix(t, "&lt;"@) {
        seq!['<'] + xml_unescaped(t.skip(4))
    } else if t.len() >= 4 && has_prefix(t, "&gt;"@) {
        seq!['>'] + xml_unescaped(t.skip(4))
    } else if t.len() >= 6 && has_prefix(t, "&quot;"@) {
        seq!['"'] + xml_unescaped(t.skip(6))
    } else if t.len() >= 6 && has_prefix(t, "&apos;"@) {
        seq!['\''] + xml_unescaped(t.skip(6))
    } else {
        seq![t[0]] + xml_unescaped(t.skip(1))
    }
}

proof fn lemma_escaped_front(c: char, rest: Seq<char>)
    ensures
        xml_escaped(seq![c] + rest) == escaped_char(c) + xml_escaped(rest),
    decreases rest.len(),
{
    let t = seq![c] + rest;
    if rest.len() == 0 {
        assert(t =~= seq![c]);
        assert(t.drop_last() =~= Seq::<char>::empty());
        assert(xml_escaped(t) == xml_escaped(t.drop_last()) + escaped_char(t.last()));
        assert(xml_escaped(Seq::<char>::empty()) == Seq::<char>::empty());
        assert(escaped_char(c) + Seq::<char>::empty() =~= escaped_char(c));
        assert(xml_escaped(rest) == Seq::<char>::empty());
        assert(xml_escaped(t) =~= escaped_char(c));
    } else {
        assert(t.drop_last() =~= seq![c] + rest.drop_last());
        assert(t.last() == rest.last());
        assert(xml_escaped(t) == xml_escaped(t.drop_last()) + escaped_char(t.last()));
        assert(xml_escaped(rest) == xml_escaped(rest.drop_last()) + escaped_char(rest.last()));
        lemma_escaped_front(c, rest.drop_last());
        assert(escaped_char(c) + xml_escaped(rest.drop_last()) + escaped_char(rest.last()) =~= escaped_char(c)
            + (xml_escaped(rest.drop_last()) + escaped_char(rest.last())));
    }
}

/// Escaped XML text holds none of `<`, `>`, `"` and `'`.
pub proof fn lemma_xml_escaped_plain(s: Seq<char>)
    ensures
        !xml_escaped(s).contains('<'),
        !xml_escaped(s).contains('>'),
        !xml_escaped(s).contains('"'),
        !xml_escaped(s).contains('\''),
    decreases s.len(),
{
    reveal_strlit("&amp;");
    reveal_strlit("&lt;");
    reveal_strlit("&gt;");
    reveal_strlit("&quot;");
    reveal_strlit("&apos;");
    if s.len() > 0 {
        lemma_xml_escaped_plain(s.drop_last());
        let a = xml_escaped(s.drop_last());
        let e = escaped_char(s.last());
        let t = xml_escaped(s);
        assert(t == a + e);
        assert forall|k: int| 0 <= k < t.len() implies t[k] != '<' && t[k] != '>' && t[k] != '"'
            && t[k] != '\'' by {
            if k < a.len() {
                assert(t[k] == a[k]);
            } else {
                assert(t[k] == e[k - a.len()]);
            }
        }
    }
}

/// Reading escaped XML text back gives the text.
pub proof fn lemma_xml_unescape_escape(s: Seq<char>)
    ensures
        xml_unescaped(xml_escaped(s)) == s,
    decreases s.len(),
{
    reveal_strlit("&amp;");
    reveal_strlit("&lt;");
    reveal_strlit("&gt;");
    reveal_strlit("&quot;");
    reveal_strlit("&apos;");
    if s.len() > 0 {
        let c = s[0];
        let rest = s.drop_first();
        assert(s =~= seq![c] + rest);
        lemma_escaped_front(c, rest);
        lemma_xml_unescape_escape(rest);
        let e = escaped_char(c);
        let x = xml_escaped(rest);
        let t = e + x;
        assert(t.skip(e.len() as int) =~= x);
        assert(t.take(e.len() as int) =~= e);
        if c == '&' {
            assert(has_prefix(t, "&amp;"@));
        } else if c == '<' {
            assert(!has_prefix(t, "&amp;"@)) by {
                assert(t[1] == 'l');
            }
            assert(has_prefix(t, "&lt;"@));
        } else if c == '>' {
            assert(!has_prefix(t, "&amp;"@)) by {
                assert(t[1] == 'g');
            }
            assert(!has_prefix(t, "&lt;"@)) by {
                assert(t[1] == 'g');
            }
            assert(has_prefix(t, "&gt;"@));
        } else if c == '"' {
            assert(!has_prefix(t, "&amp;"@)) by {
                assert(t[1] == 'q');
            }
            assert(!has_prefix(t, "&lt;"@)) by {
                assert(t[1] == 'q');
            }
            assert(!has_prefix(t, "&gt;"@)) by {
                assert(t[1] == 'q');
            }
            assert(has_prefix(t, "&quot;"@));
        } else if c == '\'' {
            assert(!has_prefix(t, "&amp;"@)) by {
                assert(t[2] == 'p');
            }
            assert(!has_prefix(t, "&lt;"@)) by {
                assert(t[1] == 'a');
            }
            assert(!has_prefix(t, "&gt;"@)) by {
                assert(t[1] == 'a');
            }
            assert(!has_prefix(t, "&quot;"@)) by {
                assert(t[1] == 'a');
            }
            assert(has_prefix(t, "&apos;"@));
        } else {
            assert(t[0] == c);
            assert(!has_prefix(t, "&amp;"@) && !has_prefix(t, "&lt;"@) && !has_prefix(t, "&gt;"@)
                && !has_prefix(t, "&quot;"@) && !has_prefix(t, "&apos;"@)) by {
                assert(t[0] != '&');
            }
        }
        assert(xml_unescaped(t) =~= s);
    }
}

/// Appends the text escaped for XML.
pub fn push_escaped(out: &mut Vec<char>, v: &Vec<char>)
    ensures
        final(out)@ == old(out)@ + xml_escaped(v@),
{
    let ghost start = old(out)@;
    let mut i: usize = 0;
    while i < v.len()
        invariant
            i <= v.len(),
            out@ == start + xml_escaped(v@.take(i as int)),
        decreases v.len() - i,
    {
        let c = v[i];
        let ghost before = out@;
        if c == '&' {
            push_str(out, "&amp;");
        } else if c == '<' {
            push_str(out, "&lt;");
        } else if c == '>' {
            push_str(out, "&gt;");
        } else if c == '"' {
            push_str(out, "&quot;");
        } else if c == '\'' {
            push_str(out, "&apos;");
        } else {
            out.push(c);
        }
        proof {
            assert(v@.take(i as int + 1).drop_last() =~= v@.take(i as int));
            assert(v@.take(i as int + 1).last() == c);
            assert(out@ =~= start + xml_escaped(v@.take(i as int + 1)));
        }
        i = i + 1;
    }
    assert(v@.take(v.len() as int) =~= v@);
}

/// The text with the XML special characters written as entities.
pub fn escape_xml(value: &str) -> (r: String)
    ensures
        r@ == xml_escaped(value@),
{
    let v = chars_of(value);
    let mut out: Vec<char> = Vec::new();
    push_escaped(&mut out, &v);
    assert(out@ =~= xml_escaped(value@));
    string_from_chars(&out)
}

} // verus!

verus! {

/// The lines that do not begin, after leading whitespace, with `<!DOCTYPE`.
pub open spec fn without_doctype(lines: Seq<Seq<char>>) -> Seq<Seq<char>>
    decreases lines.len(),
{
    if lines.len() == 0 {
        Seq::empty()
    } else {
        let rest = without_doctype(lines.drop_last());
        if has_prefix(trim_start(lines.last()), "<!DOCTYPE"@) {
            rest
        } else {
            rest.push(lines.last())
        }
    }
}

/// The text without its document type declaration lines, the other lines joined by `\n`.
pub fn strip_doctype(xml: &str) -> (r: String)
    ensures
        r@ == joined_with(without_doctype(text_lines(xml@)), '\n'),
{
    let text = chars_of(xml);
    let lines = lines_of(&text);
    let ghost lv = views(lines@);
    let mut kept: Vec<Vec<char>> = Vec::new();
    let mut i: usize = 0;
    assert(lv.take(0) =~= Seq::<Seq<char>>::empty());
    assert(views(kept@) =~= Seq::<Seq<char>>::empty());
    while i < lines.len()
        invariant
            i <= lines.len(),
            lv == views(lines@),
            views(kept@) == without_doctype(lv.take(i as int)),
        decreases lines.len() - i,
    {
        let line = &lines[i];
        assert(lv[i as int] == line@);
        assert(lv.take(i as int + 1).drop_last() =~= lv.take(i as int));
        assert(lv.take(i as int + 1).last() == line@);
        let start = trim_start_chars(line);
        if !starts_with_text(&start, "<!DOCTYPE") {
            let copy = slice_of_all(line);
            let ghost before = views(kept@);
            kept.push(copy);
            assert(views(kept@) =~= before.push(line@));
        }
        i = i + 1;
    }
    assert(lv.take(lines.len() as int) =~= lv);
    let joined = join_with(&kept, '\n');
    string_from_chars(&joined)
}

fn slice_of_all(v: &Vec<char>) -> (r: Vec<char>)
    ensures
        r@ == v@,
{
    let mut r: Vec<char> = Vec::new();
    push_all(&mut r, v);
    r
}

/// The non-empty trimmed pieces between commas.
pub open spec fn tag_list(pieces: Seq<Seq<char>>) -> Seq<Seq<char>>
    decreases pieces.len(),
{
    if pieces.len() == 0 {
        Seq::empty()
    } else {
        let rest = tag_list(pieces.drop_last());
        let t = trim(pieces.last());
        if t.len() > 0 {
            rest.push(t)
        } else {
            rest
        }
    }
}

pub open spec fn string_views(v: Seq<String>) -> Seq<Seq<char>> {
    Seq::new(v.len(), |i: int| v[i]@)
}

/// The tags of a comma-separated list, trimmed, empty ones left out.
pub fn split_tags(tags: &str) -> (r: Vec<String>)
    ensures
        string_views(r@) == tag_list(split_on(tags@, ',')),
{
    let text = chars_of(tags);
    let pieces = split_chars(&text, ',');
    let ghost pv = views(pieces@);
    let mut out: Vec<String> = Vec::new();
    let mut i: usize = 0;
    assert(pv.take(0) =~= Seq::<Seq<char>>::empty());
    assert(string_views(out@) =~= Seq::<Seq<char>>::empty());
    while i < pieces.len()
        invariant
            i <= pieces.len(),
            pv == views(pieces@),
            string_views(out@) == tag_list(pv.take(i as int)),
        decreases pieces.len() - i,
    {
        assert(pv[i as int] == pieces@[i as int]@);
        assert(pv.take(i as int + 1).drop_last() =~= pv.take(i as int));
        assert(pv.take(i as int + 1).last() == pieces@[i as int]@);
        let t = trim_chars(&pieces[i]);
        if t.len() > 0 {
            let ghost before = string_views(out@);
            let s = string_from_chars(&t);
            out.push(s);
            assert(string_views(out@) =~= before.push(t@));
        }
        i = i + 1;
    }
    assert(pv.take(pieces.len() as int) =~= pv);
    out
}

} // verus!

verus! {

// ---------------------------------------------------------------------------------------
// An XML document as the parser gives it: its nodes in document order, each with its kind,
// its name and attributes (elements), its text, and its number of children. A node's
// children follow it, each with all of its own descendants.
// ---------------------------------------------------------------------------------------

/// The kinds of node of an XML document.
#[derive(Clone, Copy, Debug, PartialEq, Eq, Structural)]
pub enum XmlKind {
    Root,
    Element,
    Instruction,
    Comment,
    Text,
}

/// One node: what kind it is (root, element, comment or text; a processing instruction is
/// none of these), for an element its local name and attributes (local name, value), its
/// text (that of a text or comment node, or an element's first child where that is text),
/// and its number of children.
pub struct XmlRecord {
    pub root: bool,
    pub element: bool,
    pub comment: bool,
    pub text_node: bool,
    pub name: String,
    pub attributes: Vec<(String, String)>,
    pub text: Option<String>,
    pub children: usize,
}

/// The kind of a node from its marks.
pub open spec fn kind_of(root: bool, element: bool, comment: bool, text_node: bool) -> XmlKind {
    if root {
        XmlKind::Root
    } else if element {
        XmlKind::Element
    } else if comment {
        XmlKind::Comment
    } else if text_node {
        XmlKind::Text
    } else {
        XmlKind::Instruction
    }
}

impl XmlRecord {
    pub fn kind(&self) -> (r: XmlKind)
        ensures
            r == kind_of(self.root, self.element, self.comment, self.text_node),
    {
        if self.root {
            XmlKind::Root
        } else if self.element {
            XmlKind::Element
        } else if self.comment {
            XmlKind::Comment
        } else if self.text_node {
            XmlKind::Text
        } else {
            XmlKind::Instruction
        }
    }
}

pub ghost struct XmlNodeView {
    pub kind: XmlKind,
    pub name: Seq<char>,
    pub attributes: Seq<(Seq<char>, Seq<char>)>,
    pub text: Option<Seq<char>>,
    pub children: usize,
}

impl View for XmlRecord {
    type V = XmlNodeView;

    open spec fn view(&self) -> XmlNodeView {
        XmlNodeView {
            kind: kind_of(self.root, self.element, self.comment, self.text_node),
            name: self.name@,
            attributes: Seq::new(self.attributes@.len(), |i: int| (self.attributes@[i].0@, self.attributes@[i].1@)),
            text: match self.text {
                Some(t) => Some(t@),
                None => None,
            },
            children: self.children,
        }
    }
}

pub open spec fn record_views(v: Seq<XmlRecord>) -> Seq<XmlNodeView> {
    Seq::new(v.len(), |i: int| v[i]@)
}

/// The nodes that `roxmltree` reads from a text, or the text of its error.
pub uninterp spec fn xml_document(text: Seq<char>) -> Result<Seq<XmlNodeView>, Seq<char>>;

/// Parses the text with `roxmltree::Document::parse` and lists the document's nodes in the
/// order `descendants` gives them, from the root on, each with `is_root`, `is_element`,
/// `is_comment` and `is_text`, the local name of `tag_name`, its `attributes` (local name
/// and value), its `text` and the count of its `children`; an error becomes its `Display`
/// text. The contract only names the outcome as a function of the text: nothing is said of
/// how the nodes relate to the text.
#[verifier::external_body]
fn parse_xml(text: &str) -> (r: Result<Vec<XmlRecord>, String>)
    ensures
        match r {
            Ok(v) => xml_document(text@) == Ok::<Seq<XmlNodeView>, Seq<char>>(record_views(v@)),
            Err(e) => xml_document(text@) == Err::<Seq<XmlNodeView>, Seq<char>>(e@),
        },
{
    match roxmltree::Document::parse(text) {
        Ok(doc) => Ok(doc.descendants().map(|n| XmlRecord {
            root: n.is_root(), element: n.is_element(), comment: n.is_comment(), text_node: n.is_text(),
            name: n.tag_name().name().to_string(),
            attributes: n.attributes().map(|a| (a.name().to_string(), a.value().to_string())).collect(),
            text: n.text().map(|t| t.to_string()),
            children: n.children().count(),
        }).collect()),
        Err(err) => Err(err.to_string()),
    }
}

/// Where the subtree of the node at `pos` ends: after the node and the subtrees of its
/// children; -1 where the list does not hold them.
pub open spec fn subtree_end(r: Seq<XmlNodeView>, pos: int) -> int
    decreases r.len() - pos, 0int, 0int,
{
    if pos < 0 || pos >= r.len() {
        -1
    } else {
        siblings_end(r, pos + 1, r[pos].children as int)
    }
}

/// Where `k` subtrees that follow each other from `p` on end.
pub open spec fn siblings_end(r: Seq<XmlNodeView>, p: int, k: int) -> int
    decreases r.len() - p, 1int, k,
{
    if k <= 0 {
        p
    } else {
        let e = subtree_end(r, p);
        if e <= p || e > r.len() {
            -1
        } else {
            siblings_end(r, e, k - 1)
        }
    }
}

pub proof fn lemma_subtree_end(r: Seq<XmlNodeView>, pos: int)
    ensures
        subtree_end(r, pos) == -1 || (pos < subtree_end(r, pos) <= r.len()),
    decreases r.len() - pos, 0int, 0int,
{
    if 0 <= pos < r.len() {
        lemma_siblings_end(r, pos + 1, r[pos].children as int);
    }
}

pub proof fn lemma_siblings_end(r: Seq<XmlNodeView>, p: int, k: int)
    requires
        0 <= p <= r.len(),
    ensures
        siblings_end(r, p, k) == -1 || (p <= siblings_end(r, p, k) <= r.len()),
    decreases r.len() - p, 1int, k,
{
    if k > 0 {
        let e = subtree_end(r, p);
        lemma_subtree_end(r, p);
        if !(e <= p || e > r.len()) {
            lemma_siblings_end(r, e, k - 1);
        }
    }
}

pub open spec fn end_option(e: int) -> Option<usize> {
    if e < 0 {
        None
    } else {
        Some(e as usize)
    }
}

/// For each node, where its subtree ends.
pub fn subtree_ends(records: &Vec<XmlRecord>) -> (r: Vec<Option<usize>>)
    ensures
        r@.len() == records@.len(),
        forall|j: int| 0 <= j < r@.len() ==> #[trigger] r@[j] == end_option(subtree_end(record_views(records@), j)),
{
    let ghost rv = record_views(records@);
    let n = records.len();
    let mut ends: Vec<Option<usize>> = Vec::new();
    let mut z: usize = 0;
    while z < n
        invariant
            z <= n,
            ends@.len() == z,
        decreases n - z,
    {
        ends.push(None);
        z = z + 1;
    }
    let mut i: usize = n;
    while i > 0
        invariant
            i <= n,
            n == records.len(),
            rv == record_views(records@),
            ends@.len() == n,
            forall|j: int| i <= j < n ==> #[trigger] ends@[j] == end_option(subtree_end(rv, j)),
        decreases i,
    {
        i = i - 1;
        let k = records[i].children;
        assert(rv[i as int].children == k);
        let mut p: usize = i + 1;
        let mut t: usize = 0;
        let mut ok = true;
        while t < k && ok
            invariant
                i < n,
                i + 1 <= p <= n,
                t <= k,
                n == records.len(),
                rv == record_views(records@),
                ends@.len() == n,
                forall|j: int| i < j < n ==> #[trigger] ends@[j] == end_option(subtree_end(rv, j)),
                ok ==> siblings_end(rv, i + 1, k as int) == siblings_end(rv, p as int, (k - t) as int),
                !ok ==> siblings_end(rv, i + 1, k as int) == -1,
            decreases (k - t) as int + (if ok { 1int } else { 0int }),
        {
            if p >= n {
                assert(subtree_end(rv, p as int) == -1);
                ok = false;
            } else {
                assert(ends@[p as int] == end_option(subtree_end(rv, p as int)));
                proof {
                    lemma_subtree_end(rv, p as int);
                }
                match ends[p] {
                    None => {
                        ok = false;
                    },
                    Some(e) => {
                        assert(subtree_end(rv, p as int) == e as int);
                        if e <= p || e > n {
                            ok = false;
                        } else {
                            p = e;
                            t = t + 1;
                        }
                    },
                }
            }
        }
        if ok {
            ends.set(i, Some(p));
        } else {
            ends.set(i, None);
        }
    }
    ends
}

} // verus!

verus! {

pub open spec fn text_or_empty(t: Option<Seq<char>>) -> Seq<char> {
    match t {
        Some(s) => s,
        None => Seq::empty(),
    }
}

/// The attributes as an element's start tag writes them: ` name="value"` each, the value
/// escaped.
pub open spec fn attributes_xml(attrs: Seq<(Seq<char>, Seq<char>)>) -> Seq<char>
    decreases attrs.len(),
{
    if attrs.len() == 0 {
        Seq::empty()
    } else {
        attributes_xml(attrs.drop_last()) + seq![' '] + attrs.last().0 + seq!['=', '"'] + xml_escaped(attrs.last().1)
            + seq!['"']
    }
}

/// The XML text of the node at `pos`: an element with its attributes and children (an
/// empty-element tag when it has none), escaped text, a comment; the root writes its
/// children; processing instructions are left out.
pub open spec fn node_xml(r: Seq<XmlNodeView>, pos: int) -> Seq<char>
    decreases r.len() - pos, 1int, 0int,
{
    if pos < 0 || pos >= r.len() {
        Seq::empty()
    } else {
        let n = r[pos];
        match n.kind {
            XmlKind::Root => children_xml(r, pos + 1, n.children as int),
            XmlKind::Element => seq!['<'] + n.name + attributes_xml(n.attributes) + if n.children == 0 {
                seq!['/', '>']
            } else {
                seq!['>'] + children_xml(r, pos + 1, n.children as int) + seq!['<', '/'] + n.name + seq!['>']
            },
            XmlKind::Text => xml_escaped(text_or_empty(n.text)),
            XmlKind::Comment => seq!['<', '!', '-', '-'] + text_or_empty(n.text) + seq!['-', '-', '>'],
            XmlKind::Instruction => Seq::empty(),
        }
    }
}

/// The XML text of `k` subtrees that follow each other from `p` on.
pub open spec fn children_xml(r: Seq<XmlNodeView>, p: int, k: int) -> Seq<char>
    decreases r.len() - p, 2int, k,
{
    if k <= 0 {
        Seq::empty()
    } else {
        let e = subtree_end(r, p);
        if e <= p || e > r.len() {
            Seq::empty()
        } else {
            node_xml(r, p) + children_xml(r, e, k - 1)
        }
    }
}

fn push_attributes(out: &mut Vec<char>, attrs: &Vec<(String, String)>)
    ensures
        final(out)@ == old(out)@ + attributes_xml(Seq::new(attrs@.len(), |i: int| (attrs@[i].0@, attrs@[i].1@))),
{
    let ghost av = Seq::new(attrs@.len(), |i: int| (attrs@[i].0@, attrs@[i].1@));
    let ghost start = out@;
    let mut i: usize = 0;
    assert(av.take(0) =~= Seq::<(Seq<char>, Seq<char>)>::empty());
    while i < attrs.len()
        invariant
            i <= attrs.len(),
            av == Seq::new(attrs@.len(), |i: int| (attrs@[i].0@, attrs@[i].1@)),
            out@ == start + attributes_xml(av.take(i as int)),
        decreases attrs.len() - i,
    {
        let name = chars_of(attrs[i].0.as_str());
        let value = chars_of(attrs[i].1.as_str());
        out.push(' ');
        push_all(out, &name);
        out.push('=');
        out.push('"');
        push_escaped(out, &value);
        out.push('"');
        assert(av.take(i as int + 1).drop_last() =~= av.take(i as int));
        assert(av.take(i as int + 1).last() == av[i as int]);
        assert(out@ =~= start + attributes_xml(av.take(i as int + 1)));
        i = i + 1;
    }
    assert(av.take(attrs.len() as int) =~= av);
}

fn push_text_of(out: &mut Vec<char>, t: &Option<String>, escape: bool)
    ensures
        final(out)@ == old(out)@ + if escape {
            xml_escaped(text_or_empty(match t {
                Some(s) => Some(s@),
                None => None,
            }))
        } else {
            text_or_empty(match t {
                Some(s) => Some(s@),
                None => None,
            })
        },
{
    let v = match t {
        Some(s) => chars_of(s.as_str()),
        None => Vec::new(),
    };
    if escape {
        push_escaped(out, &v);
    } else {
        push_all(out, &v);
    }
}

/// Appends the XML text of the node at `pos`.
fn write_node(records: &Vec<XmlRecord>, ends: &Vec<Option<usize>>, pos: usize, out: &mut Vec<char>)
    requires
        pos < records.len(),
        ends@.len() == records@.len(),
        forall|j: int| 0 <= j < ends@.len() ==> #[trigger] ends@[j] == end_option(subtree_end(record_views(records@), j)),
    ensures
        final(out)@ == old(out)@ + node_xml(record_views(records@), pos as int),
    decreases records.len() - pos,
{
    let ghost rv = record_views(records@);
    let n = &records[pos];
    assert(rv[pos as int] == n@);
    let ghost start = out@;
    match n.kind() {
        XmlKind::Root | XmlKind::Element => {
            let element = match n.kind() {
                XmlKind::Element => true,
                _ => false,
            };
            let name = chars_of(n.name.as_str());
            if element {
                out.push('<');
                push_all(out, &name);
                push_attributes(out, &n.attributes);
                if n.children == 0 {
                    out.push('/');
                    out.push('>');
                    assert(out@ =~= start + node_xml(rv, pos as int));
                    return;
                }
                out.push('>');
            }
            let ghost opened = out@;
            let k = n.children;
            let mut p: usize = pos + 1;
            let mut t: usize = 0;
            let mut ok = true;
            while t < k && ok
                invariant
                    pos < records.len(),
                    pos + 1 <= p <= records.len(),
                    t <= k,
                    k == rv[pos as int].children,
                    rv == record_views(records@),
                    ends@.len() == records@.len(),
                    forall|j: int| 0 <= j < ends@.len() ==> #[trigger] ends@[j] == end_option(subtree_end(rv, j)),
                    ok ==> opened + children_xml(rv, pos + 1, k as int) == out@ + children_xml(rv, p as int, (k - t) as int),
                    !ok ==> opened + children_xml(rv, pos + 1, k as int) == out@,
                decreases (k - t) as int + (if ok { 1int } else { 0int }),
            {
                proof {
                    lemma_subtree_end(rv, p as int);
                }
                if p >= records.len() {
                    ok = false;
                    assert(out@ + children_xml(rv, p as int, (k - t) as int) =~= out@);
                } else {
                    assert(ends@[p as int] == end_option(subtree_end(rv, p as int)));
                    match ends[p] {
                        None => {
                            ok = false;
                            assert(out@ + children_xml(rv, p as int, (k - t) as int) =~= out@);
                        },
                        Some(e) => {
                            if e <= p || e > records.len() {
                                ok = false;
                                assert(out@ + children_xml(rv, p as int, (k - t) as int) =~= out@);
                            } else {
                                let ghost before = out@;
                                write_node(records, ends, p, out);
                                assert(before + children_xml(rv, p as int, (k - t) as int) =~= out@ + children_xml(
                                    rv,
                                    e as int,
                                    (k - t - 1) as int,
                                ));
                                p = e;
                                t = t + 1;
                            }
                        },
                    }
                }
            }
            proof {
                if ok {
                    assert(children_xml(rv, p as int, 0) =~= Seq::<char>::empty());
                    assert(out@ + children_xml(rv, p as int, (k - t) as int) =~= out@);
                }
            }
            if element {
                out.push('<');
                out.push('/');
                push_all(out, &name);
                out.push('>');
            }
            assert(out@ =~= start + node_xml(rv, pos as int));
        },
        XmlKind::Text => {
            push_text_of(out, &n.text, true);
        },
        XmlKind::Comment => {
            out.push('<');
            out.push('!');
            out.push('-');
            out.push('-');
            push_text_of(out, &n.text, false);
            out.push('-');
            out.push('-');
            out.push('>');
            assert(out@ =~= start + node_xml(rv, pos as int));
        },
        XmlKind::Instruction => {
            assert(out@ =~= start + node_xml(rv, pos as int));
        },
    }
}

} // verus!

verus! {

/// The first node from `i` on that is an element named `name`, or -1.
pub open spec fn element_from(r: Seq<XmlNodeView>, name: Seq<char>, i: int) -> int
    decreases r.len() - i,
{
    if i < 0 || i >= r.len() {
        -1
    } else if r[i].kind == XmlKind::Element && r[i].name == name {
        i
    } else {
        element_from(r, name, i + 1)
    }
}

/// Whether the node is an element whose name is `name` (ignoring ASCII case where `ci`).
pub open spec fn named_element(n: XmlNodeView, name: Seq<char>, ci: bool) -> bool {
    n.kind == XmlKind::Element && if ci {
        crate::text::eq_ignore_case(n.name, name)
    } else {
        n.name == name
    }
}

/// Among `k` subtrees from `p` on, the first whose node is an element named `name`, or -1.
pub open spec fn child_from(r: Seq<XmlNodeView>, p: int, k: int, name: Seq<char>, ci: bool) -> int
    decreases r.len() - p, k,
{
    if k <= 0 || p < 0 || p >= r.len() {
        -1
    } else if named_element(r[p], name, ci) {
        p
    } else {
        let e = subtree_end(r, p);
        if e <= p || e > r.len() {
            -1
        } else {
            child_from(r, e, k - 1, name, ci)
        }
    }
}

/// The first child of the node at `pos` that is an element named `name`, or -1.
pub open spec fn child_of(r: Seq<XmlNodeView>, pos: int, name: Seq<char>, ci: bool) -> int {
    if 0 <= pos < r.len() {
        child_from(r, pos + 1, r[pos].children as int, name, ci)
    } else {
        -1
    }
}

/// A node's text, trimmed, where it has non-empty text.
pub open spec fn normalized_text(r: Seq<XmlNodeView>, pos: int) -> Option<Seq<char>> {
    if 0 <= pos < r.len() {
        match r[pos].text {
            Some(t) => if trim(t).len() > 0 {
                Some(trim(t))
            } else {
                None
            },
            None => None,
        }
    } else {
        None
    }
}

/// The texts of the text children among `k` subtrees from `p` on, one after another.
pub open spec fn child_texts(r: Seq<XmlNodeView>, p: int, k: int) -> Seq<char>
    decreases r.len() - p, k,
{
    if k <= 0 || p < 0 || p >= r.len() {
        Seq::empty()
    } else {
        let e = subtree_end(r, p);
        if e <= p || e > r.len() {
            Seq::empty()
        } else {
            (if r[p].kind == XmlKind::Text {
                text_or_empty(r[p].text)
            } else {
                Seq::empty()
            }) + child_texts(r, e, k - 1)
        }
    }
}

/// The text directly inside a node, trimmed, where it is not empty.
pub open spec fn direct_text(r: Seq<XmlNodeView>, pos: int) -> Option<Seq<char>> {
    if 0 <= pos < r.len() {
        let t = trim(child_texts(r, pos + 1, r[pos].children as int));
        if t.len() > 0 {
            Some(t)
        } else {
            None
        }
    } else {
        None
    }
}

/// The value of the first attribute named `name`.
pub open spec fn attribute_from(attrs: Seq<(Seq<char>, Seq<char>)>, name: Seq<char>, i: int) -> Option<Seq<char>>
    decreases attrs.len() - i,
{
    if i < 0 || i >= attrs.len() {
        None
    } else if attrs[i].0 == name {
        Some(attrs[i].1)
    } else {
        attribute_from(attrs, name, i + 1)
    }
}

pub open spec fn attribute_of(r: Seq<XmlNodeView>, pos: int, name: Seq<char>) -> Option<Seq<char>> {
    if 0 <= pos < r.len() {
        attribute_from(r[pos].attributes, name, 0)
    } else {
        None
    }
}

/// The position of the first element named `name` (by the name's text) from `i` on.
fn find_element(records: &Vec<XmlRecord>, name: &str) -> (r: Option<usize>)
    ensures
        match r {
            Some(p) => element_from(record_views(records@), name@, 0) == p as int,
            None => element_from(record_views(records@), name@, 0) == -1,
        },
{
    let ghost rv = record_views(records@);
    let want = chars_of(name);
    let mut i: usize = 0;
    while i < records.len()
        invariant
            i <= records.len(),
            rv == record_views(records@),
            want@ == name@,
            element_from(rv, name@, 0) == element_from(rv, name@, i as int),
        decreases records.len() - i,
    {
        assert(rv[i as int] == records@[i as int]@);
        let is_element = match records[i].kind() {
            XmlKind::Element => true,
            _ => false,
        };
        if is_element {
            let n = chars_of(records[i].name.as_str());
            if crate::text::chars_equal(&n, &want) {
                return Some(i);
            }
        }
        i = i + 1;
    }
    None
}

/// The first child of the node at `pos` that is an element named `name`.
fn find_child(records: &Vec<XmlRecord>, ends: &Vec<Option<usize>>, pos: usize, name: &str, ci: bool) -> (r: Option<usize>)
    requires
        pos < records.len(),
        ends@.len() == records@.len(),
        forall|j: int| 0 <= j < ends@.len() ==> #[trigger] ends@[j] == end_option(subtree_end(record_views(records@), j)),
    ensures
        match r {
            Some(p) => child_of(record_views(records@), pos as int, name@, ci) == p as int && p < records.len(),
            None => child_of(record_views(records@), pos as int, name@, ci) == -1,
        },
{
    let ghost rv = record_views(records@);
    let want = chars_of(name);
    let k = records[pos].children;
    assert(rv[pos as int].children == k);
    let mut p: usize = pos + 1;
    let mut t: usize = 0;
    while t < k
        invariant
            pos < records.len(),
            pos + 1 <= p <= records.len(),
            t <= k,
            rv == record_views(records@),
            want@ == name@,
            ends@.len() == records@.len(),
            forall|j: int| 0 <= j < ends@.len() ==> #[trigger] ends@[j] == end_option(subtree_end(rv, j)),
            child_of(rv, pos as int, name@, ci) == child_from(rv, p as int, (k - t) as int, name@, ci),
        decreases k - t,
    {
        if p >= records.len() {
            return None;
        }
        assert(rv[p as int] == records@[p as int]@);
        let is_element = match records[p].kind() {
            XmlKind::Element => true,
            _ => false,
        };
        if is_element {
            let n = chars_of(records[p].name.as_str());
            let same = if ci {
                crate::text::eq_ignore_ascii_case(&n, &want)
            } else {
                crate::text::chars_equal(&n, &want)
            };
            if same {
                return Some(p);
            }
        }
        proof {
            lemma_subtree_end(rv, p as int);
        }
        assert(ends@[p as int] == end_option(subtree_end(rv, p as int)));
        match ends[p] {
            None => {
                return None;
            },
            Some(e) => {
                if e <= p || e > records.len() {
                    return None;
                }
                p = e;
            },
        }
        t = t + 1;
    }
    None
}

fn text_option(t: &Option<String>) -> (r: Option<Vec<char>>)
    ensures
        match r {
            Some(v) => t matches Some(s) && v@ == s@,
            None => t is None,
        },
{
    match t {
        Some(s) => Some(chars_of(s.as_str())),
        None => None,
    }
}

/// The node's text, trimmed, where it has non-empty text.
fn node_normalized_text(records: &Vec<XmlRecord>, pos: usize) -> (r: Option<String>)
    requires
        pos < records.len(),
    ensures
        match normalized_text(record_views(records@), pos as int) {
            Some(t) => r matches Some(s) && s@ == t,
            None => r is None,
        },
{
    assert(record_views(records@)[pos as int] == records@[pos as int]@);
    match text_option(&records[pos].text) {
        Some(v) => {
            let t = trim_chars(&v);
            if t.len() > 0 {
                Some(string_from_chars(&t))
            } else {
                None
            }
        },
        None => None,
    }
}

/// The text directly inside the node at `pos`, trimmed, where it is not empty.
fn node_direct_text(records: &Vec<XmlRecord>, ends: &Vec<Option<usize>>, pos: usize) -> (r: Option<String>)
    requires
        pos < records.len(),
        ends@.len() == records@.len(),
        forall|j: int| 0 <= j < ends@.len() ==> #[trigger] ends@[j] == end_option(subtree_end(record_views(records@), j)),
    ensures
        match direct_text(record_views(records@), pos as int) {
            Some(t) => r matches Some(s) && s@ == t,
            None => r is None,
        },
{
    let ghost rv = record_views(records@);
    let k = records[pos].children;
    assert(rv[pos as int].children == k);
    let mut text: Vec<char> = Vec::new();
    let mut p: usize = pos + 1;
    let mut t: usize = 0;
    let mut ok = true;
    while t < k && ok
        invariant
            pos < records.len(),
            pos + 1 <= p <= records.len(),
            t <= k,
            rv == record_views(records@),
            ends@.len() == records@.len(),
            forall|j: int| 0 <= j < ends@.len() ==> #[trigger] ends@[j] == end_option(subtree_end(rv, j)),
            ok ==> child_texts(rv, pos + 1, k as int) == text@ + child_texts(rv, p as int, (k - t) as int),
            !ok ==> child_texts(rv, pos + 1, k as int) == text@,
        decreases (k - t) as int + (if ok { 1int } else { 0int }),
    {
        proof {
            lemma_subtree_end(rv, p as int);
        }
        if p >= records.len() {
            ok = false;
            assert(text@ + child_texts(rv, p as int, (k - t) as int) =~= text@);
        } else {
            assert(ends@[p as int] == end_option(subtree_end(rv, p as int)));
            match ends[p] {
                None => {
                    ok = false;
                    assert(text@ + child_texts(rv, p as int, (k - t) as int) =~= text@);
                },
                Some(e) => {
                    if e <= p || e > records.len() {
                        ok = false;
                        assert(text@ + child_texts(rv, p as int, (k - t) as int) =~= text@);
                    } else {
                        assert(rv[p as int] == records@[p as int]@);
                        let ghost before = text@;
                        let is_text = match records[p].kind() {
                            XmlKind::Text => true,
                            _ => false,
                        };
                        if is_text {
                            match text_option(&records[p].text) {
                                Some(v) => {
                                    push_all(&mut text, &v);
                                },
                                None => {},
                            }
                        }
                        assert(before + child_texts(rv, p as int, (k - t) as int) =~= text@ + child_texts(
                            rv,
                            e as int,
                            (k - t - 1) as int,
                        ));
                        p = e;
                        t = t + 1;
                    }
                },
            }
        }
    }
    proof {
        if ok {
            assert(text@ + child_texts(rv, p as int, (k - t) as int) =~= text@);
        }
    }
    let trimmed = trim_chars(&text);
    if trimmed.len() > 0 {
        Some(string_from_chars(&trimmed))
    } else {
        None
    }
}

/// The value of the node's first attribute named `name`.
fn node_attribute(records: &Vec<XmlRecord>, pos: usize, name: &str) -> (r: Option<String>)
    requires
        pos < records.len(),
    ensures
        match attribute_of(record_views(records@), pos as int, name@) {
            Some(v) => r matches Some(s) && s@ == v,
            None => r is None,
        },
{
    let ghost rv = record_views(records@);
    assert(rv[pos as int] == records@[pos as int]@);
    let attrs = &records[pos].attributes;
    let ghost av = rv[pos as int].attributes;
    let want = chars_of(name);
    let mut i: usize = 0;
    while i < attrs.len()
        invariant
            i <= attrs.len(),
            av == Seq::new(attrs@.len(), |i: int| (attrs@[i].0@, attrs@[i].1@)),
            pos < records.len(),
            rv == record_views(records@),
            av == rv[pos as int].attributes,
            want@ == name@,
            attribute_from(av, name@, 0) == attribute_from(av, name@, i as int),
        decreases attrs.len() - i,
    {
        let n = chars_of(attrs[i].0.as_str());
        assert(av[i as int] == (attrs@[i as int].0@, attrs@[i as int].1@));
        if crate::text::chars_equal(&n, &want) {
            return Some(attrs[i].1.clone());
        }
        i = i + 1;
    }
    None
}

} // verus!

verus! {

pub open spec fn opt_text(o: Option<String>) -> Option<Seq<char>> {
    match o {
        Some(s) => Some(s@),
        None => None,
    }
}

/// A pattern record as a mathematical value.
pub ghost struct RecordModel {
    pub display: Seq<char>,
    pub notation: Option<Seq<char>>,
    pub config: Option<Seq<char>>,
    pub animprefs: Option<Seq<char>>,
    pub info: Option<Seq<char>>,
    pub tags: Seq<Seq<char>>,
    pub raw_pattern: Option<Seq<char>>,
}

pub ghost struct LibraryModel {
    pub title: Option<Seq<char>>,
    pub info: Option<Seq<char>>,
    pub records: Seq<RecordModel>,
}

impl PatternRecord {
    pub open spec fn model(&self) -> RecordModel {
        RecordModel {
            display: self.display@,
            notation: opt_text(self.notation),
            config: opt_text(self.config),
            animprefs: opt_text(self.animprefs),
            info: opt_text(self.info),
            tags: string_views(self.tags@),
            raw_pattern: opt_text(self.raw_pattern),
        }
    }
}

pub open spec fn record_models(v: Seq<PatternRecord>) -> Seq<RecordModel> {
    Seq::new(v.len(), |i: int| v[i].model())
}

impl PatternLibrary {
    pub open spec fn model(&self) -> LibraryModel {
        LibraryModel { title: opt_text(self.title), info: opt_text(self.info), records: record_models(self.records@) }
    }
}

/// The normalized text of a node at `pos`, where there is one.
pub open spec fn text_at(r: Seq<XmlNodeView>, pos: int) -> Option<Seq<char>> {
    if pos >= 0 {
        normalized_text(r, pos)
    } else {
        None
    }
}

/// The tags written in the `tags` attribute of the node at `pos`.
pub open spec fn tags_at(r: Seq<XmlNodeView>, pos: int) -> Seq<Seq<char>> {
    if pos >= 0 {
        match attribute_of(r, pos, "tags"@) {
            Some(t) => tag_list(split_on(t, ',')),
            None => Seq::empty(),
        }
    } else {
        Seq::empty()
    }
}

/// The record a `<line>` element of a pattern list describes.
pub open spec fn line_of(r: Seq<XmlNodeView>, p: int) -> RecordModel {
    let notation = attribute_of(r, p, "notation"@);
    let info_pos = child_of(r, p, "info"@, true);
    let is_jml = notation matches Some(n) && crate::text::eq_ignore_case(n, "jml"@);
    let pattern = child_of(r, p, "pattern"@, true);
    RecordModel {
        display: text_or_empty(attribute_of(r, p, "display"@)),
        notation,
        config: if is_jml {
            if pattern >= 0 {
                text_at(r, child_of(r, pattern, "basepattern"@, true))
            } else {
                normalized_text(r, p)
            }
        } else {
            direct_text(r, p)
        },
        animprefs: attribute_of(r, p, "animprefs"@),
        info: text_at(r, info_pos),
        tags: tags_at(r, info_pos),
        raw_pattern: if is_jml && pattern >= 0 {
            Some(node_xml(r, pattern))
        } else {
            None
        },
    }
}

/// The title, information and records of a pattern list, from its element children
/// among `k` subtrees from `p` on: the last `<title>` and `<info>` count, each `<line>`
/// gives a record.
pub open spec fn list_scan(r: Seq<XmlNodeView>, p: int, k: int, lib: LibraryModel) -> LibraryModel
    decreases r.len() - p, k,
{
    if k <= 0 || p < 0 || p >= r.len() {
        lib
    } else {
        let e = subtree_end(r, p);
        if e <= p || e > r.len() {
            lib
        } else {
            let next = if named_element(r[p], "title"@, false) {
                LibraryModel { title: normalized_text(r, p), ..lib }
            } else if named_element(r[p], "info"@, false) {
                LibraryModel { info: normalized_text(r, p), ..lib }
            } else if named_element(r[p], "line"@, false) {
                LibraryModel { records: lib.records.push(line_of(r, p)), ..lib }
            } else {
                lib
            };
            list_scan(r, e, k - 1, next)
        }
    }
}

/// The library a single `<pattern>` makes: one record.
pub open spec fn single_pattern(r: Seq<XmlNodeView>, pat: int) -> LibraryModel {
    let title = text_at(r, child_of(r, pat, "title"@, true));
    let info_pos = child_of(r, pat, "info"@, true);
    let info = text_at(r, info_pos);
    LibraryModel {
        title,
        info,
        records: seq![
            RecordModel {
                display: match title {
                    Some(t) => t,
                    None => "Imported JML pattern"@,
                },
                notation: Some("jml"@),
                config: text_at(r, child_of(r, pat, "basepattern"@, true)),
                animprefs: None,
                info,
                tags: tags_at(r, info_pos),
                raw_pattern: Some(node_xml(r, pat)),
            },
        ],
    }
}

/// What the nodes of a JML document describe: the pattern list or the single pattern
/// under the first `<jml>` element.
pub open spec fn library_of(r: Seq<XmlNodeView>) -> Result<LibraryModel, Seq<char>> {
    let root = element_from(r, "jml"@, 0);
    if root < 0 {
        Err("Missing <jml> tag"@)
    } else {
        let list = child_of(r, root, "patternlist"@, false);
        if list >= 0 {
            Ok(list_scan(r, list + 1, r[list].children as int, LibraryModel { title: None, info: None, records: Seq::empty() }))
        } else {
            let pat = child_of(r, root, "pattern"@, false);
            if pat >= 0 {
                Ok(single_pattern(r, pat))
            } else {
                Err("The JML file does not contain a pattern or patternlist"@)
            }
        }
    }
}

/// The text without its document type declaration lines.
pub open spec fn doctype_stripped(xml: Seq<char>) -> Seq<char> {
    joined_with(without_doctype(text_lines(xml)), '\n')
}

/// What reading a JML text gives.
pub open spec fn jml_reading(xml: Seq<char>) -> Result<LibraryModel, Seq<char>> {
    match xml_document(doctype_stripped(xml)) {
        Err(e) => Err("Invalid XML/JML: "@ + e),
        Ok(r) => library_of(r),
    }
}

/// The XML text of the node at `pos`.
fn serialize_node(records: &Vec<XmlRecord>, ends: &Vec<Option<usize>>, pos: usize) -> (r: String)
    requires
        pos < records.len(),
        ends@.len() == records@.len(),
        forall|j: int| 0 <= j < ends@.len() ==> #[trigger] ends@[j] == end_option(subtree_end(record_views(records@), j)),
    ensures
        r@ == node_xml(record_views(records@), pos as int),
{
    let mut out: Vec<char> = Vec::new();
    write_node(records, ends, pos, &mut out);
    assert(out@ =~= node_xml(record_views(records@), pos as int));
    string_from_chars(&out)
}

fn text_of_child(records: &Vec<XmlRecord>, ends: &Vec<Option<usize>>, pos: usize, name: &str) -> (r: Option<String>)
    requires
        pos < records.len(),
        ends@.len() == records@.len(),
        forall|j: int| 0 <= j < ends@.len() ==> #[trigger] ends@[j] == end_option(subtree_end(record_views(records@), j)),
    ensures
        opt_text(r) == text_at(record_views(records@), child_of(record_views(records@), pos as int, name@, true)),
{
    match find_child(records, ends, pos, name, true) {
        Some(c) => node_normalized_text(records, c),
        None => None,
    }
}

fn tags_of(records: &Vec<XmlRecord>, info_pos: Option<usize>) -> (r: Vec<String>)
    requires
        info_pos matches Some(p) ==> p < records.len(),
    ensures
        string_views(r@) == tags_at(record_views(records@), match info_pos {
            Some(p) => p as int,
            None => -1,
        }),
{
    match info_pos {
        Some(p) => match node_attribute(records, p, "tags") {
            Some(t) => split_tags(t.as_str()),
            None => {
                let v: Vec<String> = Vec::new();
                assert(string_views(v@) =~= Seq::<Seq<char>>::empty());
                v
            },
        },
        None => {
            let v: Vec<String> = Vec::new();
            assert(string_views(v@) =~= Seq::<Seq<char>>::empty());
            v
        },
    }
}

/// The record of the `<line>` element at `p`.
fn parse_line(records: &Vec<XmlRecord>, ends: &Vec<Option<usize>>, p: usize) -> (r: PatternRecord)
    requires
        p < records.len(),
        ends@.len() == records@.len(),
        forall|j: int| 0 <= j < ends@.len() ==> #[trigger] ends@[j] == end_option(subtree_end(record_views(records@), j)),
    ensures
        r.model() == line_of(record_views(records@), p as int),
{
    let ghost rv = record_views(records@);
    let display = match node_attribute(records, p, "display") {
        Some(d) => d,
        None => String::new(),
    };
    let notation = node_attribute(records, p, "notation");
    let animprefs = node_attribute(records, p, "animprefs");
    let info_pos = find_child(records, ends, p, "info", true);
    let info = match info_pos {
        Some(i) => node_normalized_text(records, i),
        None => None,
    };
    let tags = tags_of(records, info_pos);
    let is_jml = match &notation {
        Some(n) => {
            let a = chars_of(n.as_str());
            let b = chars_of("jml");
            crate::text::eq_ignore_ascii_case(&a, &b)
        },
        None => false,
    };
    let mut raw_pattern: Option<String> = None;
    let config = if is_jml {
        match find_child(records, ends, p, "pattern", true) {
            Some(pat) => {
                raw_pattern = Some(serialize_node(records, ends, pat));
                text_of_child(records, ends, pat, "basepattern")
            },
            None => node_normalized_text(records, p),
        }
    } else {
        node_direct_text(records, ends, p)
    };
    let r = PatternRecord { display, notation, config, animprefs, info, tags, raw_pattern };
    assert(r.model() == line_of(rv, p as int));
    r
}

} // verus!

verus! {

/// The library of the `<patternlist>` element at `list`.
fn parse_pattern_list(records: &Vec<XmlRecord>, ends: &Vec<Option<usize>>, list: usize) -> (r: PatternLibrary)
    requires
        list < records.len(),
        ends@.len() == records@.len(),
        forall|j: int| 0 <= j < ends@.len() ==> #[trigger] ends@[j] == end_option(subtree_end(record_views(records@), j)),
    ensures
        r.model() == list_scan(
            record_views(records@),
            list + 1,
            record_views(records@)[list as int].children as int,
            LibraryModel { title: None, info: None, records: Seq::empty() },
        ),
{
    let ghost rv = record_views(records@);
    let ghost empty_lib = LibraryModel { title: None, info: None, records: Seq::empty() };
    let mut lib = PatternLibrary { title: None, info: None, records: Vec::new() };
    assert(record_models(lib.records@) =~= Seq::<RecordModel>::empty());
    assert(lib.model() == empty_lib);
    let k = records[list].children;
    assert(rv[list as int].children == k);
    let mut p: usize = list + 1;
    let mut t: usize = 0;
    let mut ok = true;
    while t < k && ok
        invariant
            list < records.len(),
            list + 1 <= p <= records.len(),
            t <= k,
            rv == record_views(records@),
            ends@.len() == records@.len(),
            forall|j: int| 0 <= j < ends@.len() ==> #[trigger] ends@[j] == end_option(subtree_end(rv, j)),
            ok ==> list_scan(rv, list + 1, k as int, empty_lib) == list_scan(rv, p as int, (k - t) as int, lib.model()),
            !ok ==> list_scan(rv, list + 1, k as int, empty_lib) == lib.model(),
        decreases (k - t) as int + (if ok { 1int } else { 0int }),
    {
        proof {
            lemma_subtree_end(rv, p as int);
        }
        if p >= records.len() {
            ok = false;
        } else {
            assert(ends@[p as int] == end_option(subtree_end(rv, p as int)));
            match ends[p] {
                None => {
                    ok = false;
                },
                Some(e) => {
                    if e <= p || e > records.len() {
                        ok = false;
                    } else {
                        assert(rv[p as int] == records@[p as int]@);
                        let is_element = match records[p].kind() {
                            XmlKind::Element => true,
                            _ => false,
                        };
                        let name = chars_of(records[p].name.as_str());
                        if is_element && is_text(&name, "title") {
                            lib.title = node_normalized_text(records, p);
                        } else if is_element && is_text(&name, "info") {
                            lib.info = node_normalized_text(records, p);
                        } else if is_element && is_text(&name, "line") {
                            let line = parse_line(records, ends, p);
                            let ghost before = record_models(lib.records@);
                            let ghost lm = line.model();
                            lib.records.push(line);
                            assert(record_models(lib.records@) =~= before.push(lm));
                        }
                        p = e;
                        t = t + 1;
                    }
                },
            }
        }
    }
    lib
}

/// Reads a JML text: the pattern list it holds, or its single pattern as a one-record
/// library.
pub fn parse_jml(xml: &str) -> (r: Result<PatternLibrary, String>)
    ensures
        match jml_reading(xml@) {
            Ok(m) => r matches Ok(lib) && lib.model() == m,
            Err(m) => r matches Err(e) && e@ == m,
        },
{
    let cleaned = strip_doctype(xml);
    let records = match parse_xml(cleaned.as_str()) {
        Ok(v) => v,
        Err(err) => {
            let e = chars_of(err.as_str());
            let mut m: Vec<char> = Vec::new();
            push_str(&mut m, "Invalid XML/JML: ");
            push_all(&mut m, &e);
            return Err(string_from_chars(&m));
        },
    };
    let ghost rv = record_views(records@);
    let ends = subtree_ends(&records);
    let root = match find_element(&records, "jml") {
        Some(p) => p,
        None => {
            return Err("Missing <jml> tag".to_owned());
        },
    };
    proof {
        reveal_strlit("jml");
        lemma_element_from(rv, "jml"@, 0);
    }
    match find_child(&records, &ends, root, "patternlist", false) {
        Some(list) => Ok(parse_pattern_list(&records, &ends, list)),
        None => match find_child(&records, &ends, root, "pattern", false) {
            Some(pat) => {
                let title = text_of_child(&records, &ends, pat, "title");
                let info_pos = find_child(&records, &ends, pat, "info", true);
                let info = match info_pos {
                    Some(i) => node_normalized_text(&records, i),
                    None => None,
                };
                let display = match &title {
                    Some(t) => t.clone(),
                    None => "Imported JML pattern".to_owned(),
                };
                let record = PatternRecord {
                    display,
                    notation: Some("jml".to_owned()),
                    config: text_of_child(&records, &ends, pat, "basepattern"),
                    animprefs: None,
                    info: match &info {
                        Some(i) => Some(i.clone()),
                        None => None,
                    },
                    tags: tags_of(&records, info_pos),
                    raw_pattern: Some(serialize_node(&records, &ends, pat)),
                };
                let lib = PatternLibrary { title, info, records: vec![record] };
                assert(record_models(lib.records@) =~= single_pattern(rv, pat as int).records);
                Ok(lib)
            },
            None => Err("The JML file does not contain a pattern or patternlist".to_owned()),
        },
    }
}

pub proof fn lemma_element_from(r: Seq<XmlNodeView>, name: Seq<char>, i: int)
    requires
        0 <= i,
    ensures
        element_from(r, name, i) == -1 || (i <= element_from(r, name, i) < r.len()),
    decreases r.len() - i,
{
    if i < r.len() && !(r[i].kind == XmlKind::Element && r[i].name == name) {
        lemma_element_from(r, name, i + 1);
    }
}

/// The text a JML fragment is read from: a bare `<pattern>` is wrapped in `<jml>`, other
/// texts lose their document type declaration.
pub open spec fn fragment_source(xml: Seq<char>) -> Seq<char> {
    let source = trim_start(xml);
    if has_prefix(source, "<pattern"@) {
        "<jml version=\"3\">"@ + source + "</jml>"@
    } else {
        doctype_stripped(source)
    }
}

/// The XML text of the first `<pattern>` element of a JML text.
pub open spec fn pattern_fragment(xml: Seq<char>) -> Result<Seq<char>, Seq<char>> {
    match xml_document(fragment_source(xml)) {
        Err(e) => Err("Invalid XML/JML: "@ + e),
        Ok(r) => {
            let p = element_from(r, "pattern"@, 0);
            if p < 0 {
                Err("Missing <pattern> tag"@)
            } else {
                Ok(node_xml(r, p))
            }
        },
    }
}

pub fn extract_pattern_xml(xml: &str) -> (r: Result<String, String>)
    ensures
        match pattern_fragment(xml@) {
            Ok(t) => r matches Ok(s) && s@ == t,
            Err(m) => r matches Err(e) && e@ == m,
        },
{
    let text = chars_of(xml);
    let source = trim_start_chars(&text);
    let cleaned = if starts_with_text(&source, "<pattern") {
        let mut m: Vec<char> = Vec::new();
        push_str(&mut m, "<jml version=\"3\">");
        push_all(&mut m, &source);
        push_str(&mut m, "</jml>");
        string_from_chars(&m)
    } else {
        let s = string_from_chars(&source);
        strip_doctype(s.as_str())
    };
    let records = match parse_xml(cleaned.as_str()) {
        Ok(v) => v,
        Err(err) => {
            let e = chars_of(err.as_str());
            let mut m: Vec<char> = Vec::new();
            push_str(&mut m, "Invalid XML/JML: ");
            push_all(&mut m, &e);
            return Err(string_from_chars(&m));
        },
    };
    let ghost rv = record_views(records@);
    let ends = subtree_ends(&records);
    match find_element(&records, "pattern") {
        Some(p) => {
            proof {
                lemma_element_from(rv, "pattern"@, 0);
            }
            Ok(serialize_node(&records, &ends, p))
        },
        None => Err("Missing <pattern> tag".to_owned()),
    }
}

} // verus!

verus! {

/// What `str::to_lowercase` gives for a text (Unicode lower case).
pub uninterp spec fn lowercase_text(s: Seq<char>) -> Seq<char>;

/// `str::to_lowercase`; the contract names its result as a function of the text, and on
/// ASCII text (where Unicode lower case is ASCII lower case) gives it letter by letter.
#[verifier::external_body]
fn to_lowercase(s: &str) -> (r: String)
    ensures
        r@ == lowercase_text(s@),
        (forall|i: int| 0 <= i < s@.len() ==> (#[trigger] s@[i] as u32) < 128) ==> r@
            == s@.map_values(|c: char| crate::text::lower(c)),
{
    s.to_lowercase()
}

/// The `<info>` element of a record: its information and its tags, either, or none.
pub open spec fn info_xml(rec: RecordModel) -> Seq<char> {
    if rec.info is Some || rec.tags.len() > 0 {
        let tags = joined_with(rec.tags, ',');
        match rec.info {
            Some(info) => if tags.len() == 0 {
                "<info>"@ + xml_escaped(info) + "</info>\n"@
            } else {
                "<info tags=\""@ + xml_escaped(tags) + "\">"@ + xml_escaped(info) + "</info>\n"@
            },
            None => if tags.len() == 0 {
                Seq::empty()
            } else {
                "<info tags=\""@ + xml_escaped(tags) + "\"/>\n"@
            },
        }
    } else {
        Seq::empty()
    }
}

/// The pattern text of a JML record: the `<pattern>` fragment of a whole JML document, or
/// the text itself, trimmed.
pub open spec fn raw_pattern_xml(raw: Seq<char>) -> Seq<char> {
    if has_prefix(trim_start(raw), "<jml"@) {
        match pattern_fragment(raw) {
            Ok(p) => trim(p),
            Err(e) => trim(raw),
        }
    } else {
        trim(raw)
    }
}

/// A notation in lower case: letter by letter when it is ASCII, else as `str::to_lowercase`
/// gives it.
pub open spec fn notation_lower(n: Seq<char>) -> Seq<char> {
    if forall|i: int| 0 <= i < n.len() ==> (#[trigger] n[i] as u32) < 128 {
        n.map_values(|c: char| crate::text::lower(c))
    } else {
        lowercase_text(n)
    }
}

/// The start tag of a record's `<line>` element, after an empty line.
pub open spec fn line_head(rec: RecordModel) -> Seq<char> {
    "\n<line display=\""@ + xml_escaped(trim_end(rec.display)) + seq!['"'] + match rec.notation {
        Some(n) => " notation=\""@ + xml_escaped(notation_lower(n)) + seq!['"'],
        None => Seq::empty(),
    } + match rec.animprefs {
        Some(a) => " animprefs=\""@ + xml_escaped(a) + seq!['"'],
        None => Seq::empty(),
    } + seq!['>']
}

/// The content of the `<line>` of a JML record: its pattern text, or else its configuration.
pub open spec fn jml_body(rec: RecordModel) -> Seq<char> {
    seq!['\n'] + match rec.raw_pattern {
        Some(raw) => raw_pattern_xml(raw) + seq!['\n'],
        None => match rec.config {
            Some(c) => xml_escaped(c) + seq!['\n'],
            None => Seq::empty(),
        },
    }
}

/// The content of the `<line>` of another record: its configuration and its `<info>`.
pub open spec fn plain_body(rec: RecordModel) -> Seq<char> {
    seq!['\n'] + match rec.config {
        Some(c) => xml_escaped(trim(c)) + seq!['\n'],
        None => Seq::empty(),
    } + info_xml(rec)
}

/// The `<line>` element of a record; a record without notation has no content.
pub open spec fn line_xml(rec: RecordModel) -> Seq<char> {
    let body = match rec.notation {
        Some(n) => if eq_ignore_case(n, "jml"@) {
            jml_body(rec)
        } else {
            plain_body(rec)
        },
        None => Seq::empty(),
    };
    line_head(rec) + body + "</line>\n"@
}

pub open spec fn lines_xml(recs: Seq<RecordModel>) -> Seq<char>
    decreases recs.len(),
{
    if recs.len() == 0 {
        Seq::empty()
    } else {
        lines_xml(recs.drop_last()) + line_xml(recs.last())
    }
}

/// A pattern list as a JML document.
pub open spec fn pattern_list_xml(title: Seq<char>, recs: Seq<RecordModel>) -> Seq<char> {
    "<?xml version=\"1.0\"?>\n<!DOCTYPE jml SYSTEM \"file://jml.dtd\">\n<jml version=\"3\">\n<patternlist>\n<title>"@
        + xml_escaped(title) + "</title>\n"@ + lines_xml(recs) + "</patternlist>\n</jml>\n"@
}

fn push_escaped_text(out: &mut Vec<char>, s: &String)
    ensures
        final(out)@ == old(out)@ + xml_escaped(s@),
{
    let v = chars_of(s.as_str());
    push_escaped(out, &v);
}

fn write_info(out: &mut Vec<char>, rec: &PatternRecord)
    ensures
        final(out)@ == old(out)@ + info_xml(rec.model()),
{
    let ghost m = rec.model();
    if rec.info.is_some() || rec.tags.len() > 0 {
        let mut pieces: Vec<Vec<char>> = Vec::new();
        let mut i: usize = 0;
        while i < rec.tags.len()
            invariant
                i <= rec.tags.len(),
                views(pieces@) =~= string_views(rec.tags@).take(i as int),
            decreases rec.tags.len() - i,
        {
            let ghost before = views(pieces@);
            pieces.push(chars_of(rec.tags[i].as_str()));
            assert(views(pieces@) =~= before.push(rec.tags@[i as int]@));
            i = i + 1;
        }
        assert(string_views(rec.tags@).take(rec.tags.len() as int) =~= string_views(rec.tags@));
        let tags = join_with(&pieces, ',');
        match &rec.info {
            Some(info) => {
                if tags.len() == 0 {
                    push_str(out, "<info>");
                    push_escaped_text(out, info);
                    push_str(out, "</info>\n");
                } else {
                    push_str(out, "<info tags=\"");
                    push_escaped(out, &tags);
                    push_str(out, "\">");
                    push_escaped_text(out, info);
                    push_str(out, "</info>\n");
                }
            },
            None => {
                if tags.len() > 0 {
                    push_str(out, "<info tags=\"");
                    push_escaped(out, &tags);
                    push_str(out, "\"/>\n");
                }
            },
        }
    }
    assert(out@ =~= old(out)@ + info_xml(m));
}

fn write_line_head(out: &mut Vec<char>, rec: &PatternRecord)
    ensures
        final(out)@ == old(out)@ + line_head(rec.model()),
{
    let ghost start = out@;
    let display = chars_of(rec.display.as_str());
    let shown = trim_end_chars(&display);
    push_str(out, "\n<line display=\"");
    push_escaped(out, &shown);
    out.push('"');
    match &rec.notation {
        Some(n) => {
            let low = to_lowercase(n.as_str());
            push_str(out, " notation=\"");
            push_escaped_text(out, &low);
            out.push('"');
        },
        None => {},
    }
    match &rec.animprefs {
        Some(a) => {
            push_str(out, " animprefs=\"");
            push_escaped_text(out, a);
            out.push('"');
        },
        None => {},
    }
    out.push('>');
    assert(out@ =~= start + line_head(rec.model()));
}

fn write_raw_pattern(out: &mut Vec<char>, raw: &String)
    ensures
        final(out)@ == old(out)@ + raw_pattern_xml(raw@),
{
    let rv = chars_of(raw.as_str());
    let lead = trim_start_chars(&rv);
    if starts_with_text(&lead, "<jml") {
        match extract_pattern_xml(raw.as_str()) {
            Ok(pattern) => {
                let pv = chars_of(pattern.as_str());
                let t = trim_chars(&pv);
                push_all(out, &t);
            },
            Err(_) => {
                let t = trim_chars(&rv);
                push_all(out, &t);
            },
        }
    } else {
        let t = trim_chars(&rv);
        push_all(out, &t);
    }
}

fn write_jml_body(out: &mut Vec<char>, rec: &PatternRecord)
    ensures
        final(out)@ == old(out)@ + jml_body(rec.model()),
{
    let ghost start = out@;
    out.push('\n');
    match &rec.raw_pattern {
        Some(raw) => {
            write_raw_pattern(out, raw);
            out.push('\n');
        },
        None => {
            match &rec.config {
                Some(c) => {
                    push_escaped_text(out, c);
                    out.push('\n');
                },
                None => {},
            }
        },
    }
    assert(out@ =~= start + jml_body(rec.model()));
}

fn write_plain_body(out: &mut Vec<char>, rec: &PatternRecord)
    ensures
        final(out)@ == old(out)@ + plain_body(rec.model()),
{
    let ghost start = out@;
    out.push('\n');
    match &rec.config {
        Some(c) => {
            let cv = chars_of(c.as_str());
            let t = trim_chars(&cv);
            push_escaped(out, &t);
            out.push('\n');
        },
        None => {},
    }
    let ghost mid = out@;
    write_info(out, rec);
    assert(out@ =~= start + plain_body(rec.model()));
}

fn write_line(out: &mut Vec<char>, rec: &PatternRecord)
    ensures
        final(out)@ == old(out)@ + line_xml(rec.model()),
{
    let ghost start = out@;
    write_line_head(out, rec);
    match &rec.notation {
        Some(n) => {
            let nv = chars_of(n.as_str());
            let jml = chars_of("jml");
            if eq_ignore_ascii_case(&nv, &jml) {
                write_jml_body(out, rec);
            } else {
                write_plain_body(out, rec);
            }
        },
        None => {},
    }
    push_str(out, "</line>\n");
    assert(out@ =~= start + line_xml(rec.model()));
}

/// A list of patterns as a JML document: its title, then one `<line>` per record with the
/// record's name, notation and preferences, its pattern text, and its information and tags.
pub fn write_pattern_list(title: &str, records: &[PatternRecord]) -> (r: String)
    ensures
        r@ == pattern_list_xml(title@, record_models(records@)),
{
    let mut out: Vec<char> = Vec::new();
    push_str(&mut out, "<?xml version=\"1.0\"?>\n<!DOCTYPE jml SYSTEM \"file://jml.dtd\">\n<jml version=\"3\">\n<patternlist>\n<title>");
    let t = chars_of(title);
    push_escaped(&mut out, &t);
    push_str(&mut out, "</title>\n");
    let ghost head = out@;
    let ghost recs = record_models(records@);
    let mut i: usize = 0;
    assert(recs.take(0) =~= Seq::<RecordModel>::empty());
    while i < records.len()
        invariant
            i <= records@.len(),
            recs == record_models(records@),
            out@ == head + lines_xml(recs.take(i as int)),
        decreases records@.len() - i,
    {
        write_line(&mut out, &records[i]);
        assert(recs.take(i as int + 1).drop_last() =~= recs.take(i as int));
        assert(recs.take(i as int + 1).last() == records@[i as int].model());
        i = i + 1;
    }
    assert(recs.take(records@.len() as int) =~= recs);
    push_str(&mut out, "</patternlist>\n</jml>\n");
    proof {
        reveal_strlit("<?xml version=\"1.0\"?>\n<!DOCTYPE jml SYSTEM \"file://jml.dtd\">\n<jml version=\"3\">\n<patternlist>\n<title>");
    }
    assert(out@ =~= pattern_list_xml(title@, recs));
    string_from_chars(&out)
}


/// `w` stands in `t` at position `k`.
pub open spec fn occurs_at(t: Seq<char>, w: Seq<char>, k: int) -> bool {
    0 <= k && k + w.len() <= t.len() && t.subrange(k, k + w.len()) == w
}

/// The end of an `<info>` element whose text is `info`, written escaped.
pub open spec fn info_ending(info: Seq<char>) -> Seq<char> {
    seq!['>'] + xml_escaped(info) + "</info>\n"@
}

proof fn lemma_occurs_middle(a: Seq<char>, w: Seq<char>, b: Seq<char>)
    ensures
        occurs_at(a + w + b, w, a.len() as int),
{
    assert((a + w + b).subrange(a.len() as int, (a.len() + w.len()) as int) =~= w);
}

proof fn lemma_occurs_shift(a: Seq<char>, t: Seq<char>, b: Seq<char>, w: Seq<char>, k: int)
    requires
        occurs_at(t, w, k),
    ensures
        occurs_at(a + t + b, w, a.len() + k),
{
    assert((a + t + b).subrange(a.len() + k, a.len() + k + w.len()) =~= t.subrange(k, k + w.len()));
}

proof fn lemma_occurs_trans(t: Seq<char>, u: Seq<char>, w: Seq<char>, o: int, k: int)
    requires
        occurs_at(t, u, o),
        occurs_at(u, w, k),
    ensures
        occurs_at(t, w, o + k),
{
    assert(t.subrange(o + k, o + k + w.len()) =~= t.subrange(o, o + u.len()).subrange(k, k + w.len()));
}

/// The `<line>` of a record with a notation other than JML that carries information holds
/// that information, escaped, as the text of an `<info>` element, with or without tags.
pub proof fn lemma_line_keeps_info(rec: RecordModel)
    requires
        rec.notation matches Some(n) && !eq_ignore_case(n, "jml"@),
        rec.info is Some,
    ensures
        exists|k: int| occurs_at(line_xml(rec), info_ending(rec.info->0), k),
{
    reveal_strlit("<info>");
    reveal_strlit("<info");
    reveal_strlit("<info tags=\"");
    reveal_strlit("\">");
    reveal_strlit("\"");
    let i = rec.info->0;
    let w = info_ending(i);
    let tags = joined_with(rec.tags, ',');
    let x = if tags.len() == 0 {
        "<info"@
    } else {
        "<info tags=\""@ + xml_escaped(tags) + "\""@
    };
    if tags.len() == 0 {
        assert("<info>"@ =~= "<info"@ + seq!['>']);
        assert(info_xml(rec) =~= x + w);
    } else {
        assert("\">"@ =~= "\""@ + seq!['>']);
        assert(info_xml(rec) =~= x + w);
    }
    let pre = line_head(rec) + (seq!['\n'] + match rec.config {
        Some(c) => xml_escaped(trim(c)) + seq!['\n'],
        None => Seq::empty(),
    });
    assert(line_xml(rec) =~= (pre + x) + w + "</line>\n"@);
    lemma_occurs_middle(pre + x, w, "</line>\n"@);
}

proof fn lemma_lines_keep_line(recs: Seq<RecordModel>, j: int) -> (o: int)
    requires
        0 <= j < recs.len(),
    ensures
        occurs_at(lines_xml(recs), line_xml(recs[j]), o),
    decreases recs.len(),
{
    let front = recs.drop_last();
    if j == recs.len() - 1 {
        assert(lines_xml(recs) =~= lines_xml(front) + line_xml(recs[j]) + Seq::<char>::empty());
        lemma_occurs_middle(lines_xml(front), line_xml(recs[j]), Seq::<char>::empty());
        lines_xml(front).len() as int
    } else {
        let o = lemma_lines_keep_line(front, j);
        assert(front[j] == recs[j]);
        assert(lines_xml(recs) =~= Seq::<char>::empty() + lines_xml(front) + line_xml(recs.last()));
        lemma_occurs_shift(Seq::<char>::empty(), lines_xml(front), line_xml(recs.last()), line_xml(recs[j]), o);
        o
    }
}

/// A pattern list written as a JML document keeps the information of every record with a
/// notation other than JML: it stands, escaped, as the text of an `<info>` element.
pub proof fn lemma_pattern_list_keeps_info(title: Seq<char>, recs: Seq<RecordModel>, j: int)
    requires
        0 <= j < recs.len(),
        recs[j].notation matches Some(n) && !eq_ignore_case(n, "jml"@),
        recs[j].info is Some,
    ensures
        exists|k: int| occurs_at(pattern_list_xml(title, recs), info_ending(recs[j].info->0), k),
{
    let w = info_ending(recs[j].info->0);
    lemma_line_keeps_info(recs[j]);
    let k1 = choose|k: int| occurs_at(line_xml(recs[j]), w, k);
    let o = lemma_lines_keep_line(recs, j);
    let lines = lines_xml(recs);
    lemma_occurs_trans(lines, line_xml(recs[j]), w, o, k1);
    let head = "<?xml version=\"1.0\"?>\n<!DOCTYPE jml SYSTEM \"file://jml.dtd\">\n<jml version=\"3\">\n<patternlist>\n<title>"@
        + xml_escaped(title) + "</title>\n"@;
    let tail = "</patternlist>\n</jml>\n"@;
    assert(pattern_list_xml(title, recs) =~= head + lines + tail);
    lemma_occurs_shift(head, lines, tail, w, o + k1);
}

} // verus!
