//! The decisions and text made while documents are indexed: which files
//! are read and how, the text taken from office documents, the prompt that
//! asks for tags and what is kept of the reply, the text that is embedded,
//! how a failed embedding is retried, and which embeddings are stored.

use vstd::prelude::*;
use vstd::string::StringExecFns;
use crate::path::{extension, extension_of};
use crate::text::{
    chars_of, contains_str, contains_text, find_char, first_index_of, head_bytes, is_blank,
    is_blank_chars, leading_bytes, lowercase, remove_chars, same_text, split_char, split_chars,
    string_from, to_lowercase, utf8, without_chars, is_ascii_text, ascii_lower, lemma_split_join,
    lemma_split_single, lemma_first_index_of,
};

verus! {

/// How the text of a file is read.
#[derive(Clone, Copy, PartialEq, Eq, Structural, Debug)]
pub enum DocKind {
    /// Read as it stands (`rs`, `md`, `txt`, `toml`, `json`).
    PlainText,
    /// A zip archive of XML parts (`docx`, `pptx`).
    OfficeArchive,
    /// Not read: its text is empty.
    Unsupported,
}

/// The kind of a file by its extension, already in lower case.
pub open spec fn kind_of_extension(e: Seq<char>) -> DocKind {
    if e == "rs"@ || e == "md"@ || e == "txt"@ || e == "toml"@ || e == "json"@ {
        DocKind::PlainText
    } else if e == "docx"@ || e == "pptx"@ {
        DocKind::OfficeArchive
    } else {
        DocKind::Unsupported
    }
}

/// The kind of the file at `p`: by its extension in lower case, the empty
/// text standing for no extension.
pub open spec fn kind_of_path(p: Seq<char>) -> DocKind {
    kind_of_extension(
        lowercase(
            match extension(p) {
                Some(e) => e,
                None => Seq::empty(),
            },
        ),
    )
}

/// The kind of a file whose extension, in lower case, is `lower`.
pub fn kind_of_extension_text(lower: &str) -> (k: DocKind)
    ensures
        k == kind_of_extension(lower@),
{
    if same_text(lower, "rs") || same_text(lower, "md") || same_text(lower, "txt") || same_text(
        lower,
        "toml",
    ) || same_text(lower, "json") {
        DocKind::PlainText
    } else if same_text(lower, "docx") || same_text(lower, "pptx") {
        DocKind::OfficeArchive
    } else {
        DocKind::Unsupported
    }
}

/// The kind of the file at `path`.
pub fn document_kind(path: &str) -> (k: DocKind)
    ensures
        k == kind_of_path(path@),
        extension(path@) is None ==> k == DocKind::Unsupported,
        extension(path@) matches Some(e) ==> (is_ascii_text(e) ==> k == kind_of_extension(
            ascii_lower(e),
        )),
{
    let e = match extension_of(path) {
        Some(e) => e,
        None => String::new(),
    };
    let lower = to_lowercase(e.as_str());
    let k = kind_of_extension_text(lower.as_str());
    proof {
        if extension(path@) is None {
            assert(lower@ =~= Seq::<char>::empty());
            reveal_strlit("rs");
            reveal_strlit("md");
            reveal_strlit("txt");
            reveal_strlit("toml");
            reveal_strlit("json");
            reveal_strlit("docx");
            reveal_strlit("pptx");
        }
    }
    k
}

/// An archive member holds document text: a Word body or a slide.
pub open spec fn is_text_part(name: Seq<char>) -> bool {
    contains_text(name, "word/document.xml"@) || contains_text(name, "ppt/slides/slide"@)
}

/// Whether the archive member `name` holds document text.
pub fn wants_archive_entry(name: &str) -> (b: bool)
    ensures
        b == is_text_part(name@),
{
    contains_str(name, "word/document.xml") || contains_str(name, "ppt/slides/slide")
}

/// What one `>`-separated piece of XML gives: the text before its first
/// `<`, on a line of its own, unless that text is blank.
pub open spec fn xml_piece(part: Seq<char>) -> Seq<char> {
    let i = first_index_of(part, '<');
    if i < 0 {
        Seq::empty()
    } else if is_blank(part.take(i)) {
        Seq::empty()
    } else {
        part.take(i).push('\n')
    }
}

/// The pieces' texts, one after the other.
pub open spec fn join_pieces(parts: Seq<Seq<char>>) -> Seq<char>
    decreases parts.len(),
{
    if parts.len() == 0 {
        Seq::empty()
    } else {
        join_pieces(parts.drop_last()) + xml_piece(parts.last())
    }
}

/// The text of an XML part: what stands between tags, line by line.
pub open spec fn xml_text(xml: Seq<char>) -> Seq<char> {
    join_pieces(split_char(xml, '>'))
}

/// The text of the XML part `xml`.
pub fn xml_text_of(xml: &str) -> (t: String)
    ensures
        t@ == xml_text(xml@),
{
    let v = chars_of(xml);
    let parts = split_chars(v.as_slice(), '>');
    let ghost pv = parts.deep_view();
    let mut out: Vec<char> = Vec::new();
    assert(pv.take(0) =~= Seq::<Seq<char>>::empty());
    assert(out@ =~= join_pieces(pv.take(0)));
    for k in 0..parts.len()
        invariant
            pv == parts.deep_view(),
            out@ == join_pieces(pv.take(k as int)),
    {
        assert(pv.take(k + 1).drop_last() =~= pv.take(k as int));
        let part = &parts[k];
        assert(part@ == pv[k as int]);
        assert(pv.take(k + 1).last() == part@);
        match find_char(part.as_slice(), '<') {
            None => {
                assert(xml_piece(part@) =~= Seq::<char>::empty());
                assert(out@ + xml_piece(part@) =~= out@);
            },
            Some(end) => {
                let mut text: Vec<char> = Vec::new();
                for j in 0..end
                    invariant
                        end <= part@.len(),
                        text@ == part@.take(j as int),
                {
                    text.push(part[j]);
                    assert(part@.take(j as int).push(part@[j as int]) =~= part@.take(j + 1));
                }
                if is_blank_chars(text.as_slice()) {
                    assert(out@ + xml_piece(part@) =~= out@);
                } else {
                    let ghost before = out@;
                    for j in 0..text.len()
                        invariant
                            out@ == before + text@.take(j as int),
                    {
                        out.push(text[j]);
                        assert(text@.take(j as int).push(text@[j as int]) =~= text@.take(j + 1));
                    }
                    out.push('\n');
                    assert(text@.take(text@.len() as int) =~= text@);
                    assert(out@ =~= before + xml_piece(part@));
                }
            },
        }
    }
    assert(pv.take(pv.len() as int) =~= pv);
    string_from(out.as_slice())
}

proof fn lemma_join_pieces_concat(a: Seq<Seq<char>>, b: Seq<Seq<char>>)
    ensures
        join_pieces(a + b) == join_pieces(a) + join_pieces(b),
    decreases b.len(),
{
    if b.len() == 0 {
        assert(a + b =~= a);
        assert(join_pieces(a) + join_pieces(b) =~= join_pieces(a));
    } else {
        assert((a + b).drop_last() =~= a + b.drop_last());
        assert((a + b).last() == b.last());
        lemma_join_pieces_concat(a, b.drop_last());
        assert(join_pieces(a) + join_pieces(b.drop_last()) + xml_piece(b.last()) =~= join_pieces(a)
            + (join_pieces(b.drop_last()) + xml_piece(b.last())));
    }
}

/// The text of XML joined at a `>` is the text of each side, one after the
/// other: no text is lost or made up at a tag's end.
pub proof fn lemma_xml_text_split(x: Seq<char>, y: Seq<char>)
    ensures
        xml_text(x + ">"@ + y) == xml_text(x) + xml_text(y),
{
    reveal_strlit(">");
    assert(x + ">"@ + y =~= x.push('>') + y);
    lemma_split_join(x, y, '>');
    lemma_join_pieces_concat(split_char(x, '>'), split_char(y, '>'));
}

/// A run of text `t` followed by a tag (`<` and then `c`, with no `>`) gives
/// `t` verbatim on a line of its own, spaces and all, unless `t` is all
/// white space, which gives nothing.
pub proof fn lemma_xml_text_run(t: Seq<char>, c: Seq<char>)
    requires
        !t.contains('<'),
        !t.contains('>'),
        !c.contains('>'),
    ensures
        !is_blank(t) ==> xml_text(t + "<"@ + c) == t.push('\n'),
        is_blank(t) ==> xml_text(t + "<"@ + c) == Seq::<char>::empty(),
{
    reveal_strlit("<");
    let w = t + "<"@ + c;
    assert(!w.contains('>')) by {
        if w.contains('>') {
            let i = choose|i: int| 0 <= i < w.len() && w[i] == '>';
            if i < t.len() {
                assert(t[i] == '>');
            } else if i == t.len() {
            } else {
                assert(c[i - t.len() - 1] == '>');
            }
        }
    }
    lemma_split_single(w, '>');
    let parts = split_char(w, '>');
    assert(parts.drop_last() =~= Seq::<Seq<char>>::empty());
    assert(join_pieces(parts) == join_pieces(parts.drop_last()) + xml_piece(w));
    assert(join_pieces(parts.drop_last()) + xml_piece(w) =~= xml_piece(w));
    lemma_first_index_of(w, '<');
    let f = first_index_of(w, '<');
    assert(w[t.len() as int] == '<');
    if f >= 0 && f < t.len() {
        assert(w[f] == t[f]);
    }
    assert(f == t.len());
    assert(w.take(f) =~= t);
}

/// Text between a tag's end and the next tag is kept verbatim, on a line of
/// its own, between the text before it and the text after it, unless it is
/// all white space.
pub proof fn lemma_xml_text_keeps_runs(a: Seq<char>, t: Seq<char>, c: Seq<char>, b: Seq<char>)
    requires
        !t.contains('<'),
        !t.contains('>'),
        !c.contains('>'),
        !is_blank(t),
    ensures
        xml_text(a + ">"@ + t + "<"@ + c + ">"@ + b) == xml_text(a) + t.push('\n') + xml_text(b),
{
    let inner = t + "<"@ + c;
    assert(a + ">"@ + t + "<"@ + c + ">"@ + b =~= a + ">"@ + (inner + ">"@ + b));
    lemma_xml_text_split(a, inner + ">"@ + b);
    lemma_xml_text_split(inner, b);
    lemma_xml_text_run(t, c);
    assert(xml_text(a) + (t.push('\n') + xml_text(b)) =~= xml_text(a) + t.push('\n') + xml_text(b));
}

/// The prompt that asks for the tags of the file `path` whose text begins
/// with `snippet`.
pub open spec fn tag_prompt(path: Seq<char>, snippet: Seq<char>) -> Seq<char> {
    "Analyze the following code/text and generate exactly 1 to 3 categorization tags (e.g., 'networking', 'ui', 'database', 'utils').\n            Return ONLY the tags separated by commas. Do not explain.\n            File Path: "@
        + path + "\n            Content:\n            "@ + snippet
}

/// The first `max` bytes of `s` as text, or all of `s` when it is shorter.
pub open spec fn cut(s: Seq<char>, max: nat) -> Seq<char> {
    vstd::utf8::decode_utf8(leading_bytes(s, max))
}

/// The most bytes of a file's text shown when asking for tags.
pub const TAG_SNIPPET_BYTES: usize = 2000;

/// The most bytes of a file's text that are embedded.
pub const EMBED_SNIPPET_BYTES: usize = 6000;

/// The prompt asking for the tags of `path`, given its text `content`.
pub fn tags_prompt(path: &str, content: &str) -> (p: String)
    requires
        utf8(content@).len() <= TAG_SNIPPET_BYTES || vstd::utf8::is_char_boundary(
            utf8(content@),
            TAG_SNIPPET_BYTES as int,
        ),
    ensures
        p@ == tag_prompt(path@, cut(content@, TAG_SNIPPET_BYTES as nat)),
{
    let snippet = head_bytes(content, TAG_SNIPPET_BYTES);
    let mut p = String::from_str(
        "Analyze the following code/text and generate exactly 1 to 3 categorization tags (e.g., 'networking', 'ui', 'database', 'utils').\n            Return ONLY the tags separated by commas. Do not explain.\n            File Path: ",
    );
    p.append(path);
    p.append("\n            Content:\n            ");
    p.append(snippet.as_str());
    p
}

/// The tags kept of the model's reply: line breaks and dots dropped, in
/// lower case; `misc` when there was no reply.
pub open spec fn tags_of_reply(reply: Option<Seq<char>>) -> Seq<char> {
    match reply {
        Some(r) => lowercase(without_chars(r, '\n', '.')),
        None => "misc"@,
    }
}

/// The tags kept of the model's reply, or `misc` when the request failed.
pub fn tags_from_reply(reply: Option<String>) -> (t: String)
    ensures
        t@ == tags_of_reply(
            match reply {
                Some(r) => Some(r@),
                None => None,
            },
        ),
        !t@.contains('\n'),
        !t@.contains('.'),
        reply matches Some(r) ==> (is_ascii_text(r@) ==> t@ == ascii_lower(reply_chars_kept(r@))),
{
    match reply {
        Some(r) => {
            let clean = remove_chars(r.as_str(), '\n', '.');
            proof {
                lemma_without_chars(r@, '\n', '.');
                lemma_without_chars_filter(r@, '\n', '.');
                if is_ascii_text(r@) {
                    lemma_without_chars_ascii(r@, '\n', '.');
                }
            }
            to_lowercase(clean.as_str())
        },
        None => {
            let t = String::from_str("misc");
            proof {
                reveal_strlit("misc");
            }
            t
        },
    }
}

/// The characters of a reply that are kept as tag text: all but line breaks
/// and dots, in order.
pub open spec fn reply_chars_kept(r: Seq<char>) -> Seq<char> {
    r.filter(|c: char| c != '\n' && c != '.')
}

/// Removing two characters keeps every other character, in order.
pub proof fn lemma_without_chars_filter(s: Seq<char>, a: char, b: char)
    ensures
        without_chars(s, a, b) == s.filter(|c: char| c != a && c != b),
    decreases s.len(),
{
    let p = |c: char| c != a && c != b;
    reveal_with_fuel(Seq::filter, 1);
    if s.len() > 0 {
        lemma_without_chars_filter(s.drop_last(), a, b);
        assert(s.filter(p) == (if p(s.last()) {
            s.drop_last().filter(p).push(s.last())
        } else {
            s.drop_last().filter(p)
        }));
    } else {
        assert(s.filter(p) == s);
    }
}

proof fn lemma_without_chars_ascii(s: Seq<char>, a: char, b: char)
    requires
        is_ascii_text(s),
    ensures
        is_ascii_text(without_chars(s, a, b)),
    decreases s.len(),
{
    if s.len() > 0 {
        assert(is_ascii_text(s.drop_last())) by {
            assert forall|i: int| 0 <= i < s.drop_last().len() implies (#[trigger] s.drop_last()[i] as u32) < 128 by {
                assert(s.drop_last()[i] == s[i]);
            }
        }
        lemma_without_chars_ascii(s.drop_last(), a, b);
        let rest = without_chars(s.drop_last(), a, b);
        let w = without_chars(s, a, b);
        assert forall|i: int| 0 <= i < w.len() implies (#[trigger] w[i] as u32) < 128 by {
            if i < rest.len() {
                assert(w[i] == rest[i]);
            } else {
                assert(w[i] == s[s.len() - 1]);
            }
        }
    }
}

/// The tags kept of a reply are the reply with its line breaks and dots
/// taken out, every other character kept in order, in lower case; with no
/// reply they are `misc`.
pub proof fn lemma_tags_of_reply(r: Seq<char>)
    ensures
        tags_of_reply(Some(r)) == lowercase(reply_chars_kept(r)),
        tags_of_reply(None) == "misc"@,
{
    lemma_without_chars_filter(r, '\n', '.');
}

/// `without_chars` leaves neither of the two characters.
pub proof fn lemma_without_chars(s: Seq<char>, a: char, b: char)
    ensures
        !without_chars(s, a, b).contains(a),
        !without_chars(s, a, b).contains(b),
    decreases s.len(),
{
    if s.len() > 0 {
        lemma_without_chars(s.drop_last(), a, b);
        let rest = without_chars(s.drop_last(), a, b);
        let w = without_chars(s, a, b);
        assert forall|i: int| 0 <= i < w.len() implies w[i] != a && w[i] != b by {
            if i < rest.len() {
                assert(w[i] == rest[i]);
            }
        }
    }
}

/// The text embedded for a file: its path, its tags, and the start of its
/// text.
pub open spec fn embedding_text(path: Seq<char>, tags: Seq<char>, snippet: Seq<char>) -> Seq<char> {
    "filepath: "@ + path + "\ntags: "@ + tags + "\n---\n"@ + snippet
}

/// The text embedded for the file `path` with tags `tags` and text
/// `content`.
pub fn document_text(path: &str, tags: &str, content: &str) -> (t: String)
    requires
        utf8(content@).len() <= EMBED_SNIPPET_BYTES || vstd::utf8::is_char_boundary(
            utf8(content@),
            EMBED_SNIPPET_BYTES as int,
        ),
    ensures
        t@ == embedding_text(path@, tags@, cut(content@, EMBED_SNIPPET_BYTES as nat)),
{
    let snippet = head_bytes(content, EMBED_SNIPPET_BYTES);
    let mut t = String::from_str("filepath: ");
    t.append(path);
    t.append("\ntags: ");
    t.append(tags);
    t.append("\n---\n");
    t.append(snippet.as_str());
    t
}

/// The most attempts at an embedding.
pub const MAX_EMBED_ATTEMPTS: u32 = 3;

/// After the embedding of `text` failed on attempt number `attempts`
/// (counted from 0): the next attempt, with the count and the first half of
/// the text's bytes, or `None` when the text cannot be halved or the
/// attempts are spent.
pub fn next_attempt(attempts: u32, text: &str) -> (r: Option<(u32, String)>)
    requires
        attempts < MAX_EMBED_ATTEMPTS,
        utf8(text@).len() / 2 == 0 || vstd::utf8::is_char_boundary(
            utf8(text@),
            (utf8(text@).len() / 2) as int,
        ),
    ensures
        ({
            let half = utf8(text@).len() / 2;
            &&& (half == 0 || attempts + 1 >= MAX_EMBED_ATTEMPTS) ==> r is None
            &&& (half > 0 && attempts + 1 < MAX_EMBED_ATTEMPTS) ==> (r matches Some((a, t)) && a
                == attempts + 1 && t@ == vstd::utf8::decode_utf8(utf8(text@).take(half as int)))
        }),
{
    let count = attempts + 1;
    let half = text.as_bytes().len() / 2;
    if half == 0 {
        return None;
    }
    let shorter = head_bytes(text, half);
    if count < MAX_EMBED_ATTEMPTS {
        Some((count, shorter))
    } else {
        None
    }
}

/// The documents kept for storing: their paths and tags, position by
/// position, and the dimension of their embeddings, fixed by the first.
pub struct IndexBatch {
    paths: Vec<String>,
    tags: Vec<String>,
    dim: Option<usize>,
    sizes: Ghost<Seq<usize>>,
}

impl IndexBatch {
    /// The paths kept.
    pub closed spec fn paths(&self) -> Seq<Seq<char>> {
        self.paths.deep_view()
    }

    /// The tags of each path kept.
    pub closed spec fn tag_texts(&self) -> Seq<Seq<char>> {
        self.tags.deep_view()
    }

    /// The dimension fixed by the first embedding kept.
    pub closed spec fn dim(&self) -> Option<usize> {
        self.dim
    }

    /// The dimension of the embedding of each path kept.
    pub closed spec fn sizes(&self) -> Seq<usize> {
        self.sizes@
    }

    /// One tag text and one embedding per path; a dimension, and a positive
    /// one, exactly when something is kept; every kept embedding has it.
    pub open spec fn wf(&self) -> bool {
        &&& self.paths().len() == self.tag_texts().len()
        &&& self.paths().len() == self.sizes().len()
        &&& (self.dim() is Some <==> self.paths().len() > 0)
        &&& (self.dim() matches Some(d) ==> d > 0)
        &&& forall|i: int| 0 <= i < self.sizes().len() ==> Some(#[trigger] self.sizes()[i]) == self.dim()
    }

    /// Nothing kept.
    pub fn new() -> (b: Self)
        ensures
            b.wf(),
            b.paths() == Seq::<Seq<char>>::empty(),
            b.tag_texts() == Seq::<Seq<char>>::empty(),
            b.sizes() == Seq::<usize>::empty(),
            b.dim() is None,
    {
        let b = IndexBatch { paths: Vec::new(), tags: Vec::new(), dim: None, sizes: Ghost(Seq::empty()) };
        assert(b.paths() =~= Seq::<Seq<char>>::empty());
        assert(b.tag_texts() =~= Seq::<Seq<char>>::empty());
        b
    }

    /// Offers a document whose embedding has `dim` entries: it is kept when
    /// `dim` is positive and matches the dimension fixed so far.
    pub fn offer(&mut self, path: String, tags: String, dim: usize) -> (kept: bool)
        requires
            old(self).wf(),
        ensures
            final(self).wf(),
            kept == (dim > 0 && (old(self).dim() is None || old(self).dim() == Some(dim))),
            kept ==> final(self).paths() == old(self).paths().push(path@) && final(self).tag_texts()
                == old(self).tag_texts().push(tags@) && final(self).sizes() == old(self).sizes().push(dim)
                && final(self).dim() == Some(dim),
            !kept ==> final(self).paths() == old(self).paths() && final(self).tag_texts() == old(
                self,
            ).tag_texts() && final(self).sizes() == old(self).sizes() && final(self).dim() == old(self).dim(),
    {
        if dim == 0 {
            return false;
        }
        let fits = match self.dim {
            None => true,
            Some(d) => d == dim,
        };
        if !fits {
            return false;
        }
        let ghost op = self.paths();
        let ghost ot = self.tag_texts();
        let ghost pv = path@;
        let ghost tv = tags@;
        let ghost opv = self.paths@;
        let ghost otv = self.tags@;
        self.paths.push(path);
        self.tags.push(tags);
        self.dim = Some(dim);
        self.sizes = Ghost(self.sizes@.push(dim));
        assert(self.paths() =~= op.push(pv)) by {
            assert forall|i: int| 0 <= i < op.len() implies #[trigger] self.paths()[i] == op[i] by {
                assert(self.paths@[i] == opv[i]);
            }
        }
        assert(self.tag_texts() =~= ot.push(tv)) by {
            assert forall|i: int| 0 <= i < ot.len() implies #[trigger] self.tag_texts()[i] == ot[i] by {
                assert(self.tags@[i] == otv[i]);
            }
        }
        true
    }

    /// Whether nothing is kept.
    pub fn is_empty(&self) -> (b: bool)
        ensures
            b == (self.paths().len() == 0),
    {
        self.paths.len() == 0
    }

    /// The dimension as the store takes it: the fixed one, or 0.
    pub fn dimension(&self) -> (d: i32)
        ensures
            d == match self.dim() {
                Some(x) => x as i32,
                None => 0i32,
            },
    {
        match self.dim {
            Some(x) => x as i32,
            None => 0,
        }
    }

    /// The paths and tag texts kept.
    pub fn into_lists(self) -> (r: (Vec<String>, Vec<String>))
        ensures
            r.0.deep_view() == self.paths(),
            r.1.deep_view() == self.tag_texts(),
    {
        (self.paths, self.tags)
    }
}

/// Whatever a batch was offered, it keeps one tag text and one embedding
/// per path, and all the embeddings it keeps have the same, positive
/// dimension.
pub proof fn lemma_batch_uniform(b: IndexBatch)
    requires
        b.wf(),
    ensures
        b.paths().len() == b.tag_texts().len() == b.sizes().len(),
        forall|i: int, j: int|
            0 <= i < b.sizes().len() && 0 <= j < b.sizes().len() ==> #[trigger] b.sizes()[i]
                == #[trigger] b.sizes()[j] && b.sizes()[i] > 0,
{
    assert forall|i: int, j: int|
        0 <= i < b.sizes().len() && 0 <= j < b.sizes().len() implies #[trigger] b.sizes()[i]
            == #[trigger] b.sizes()[j] && b.sizes()[i] > 0 by {
        assert(Some(b.sizes()[i]) == b.dim());
        assert(Some(b.sizes()[j]) == b.dim());
    }
}

} // verus!
