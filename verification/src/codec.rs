use vstd::prelude::*;
use vstd::string::StrSliceExecFns;
use svg::parser::Event;
use svg::parser::Parser;

verus! {

#[derive(Debug, PartialEq, Eq, Structural, Clone, Copy)]
pub enum CodecError {
    /// The document holds no comment that could carry the state.
    EmbeddedStateNotFound,
    /// The comment is not one that carries a state.
    MalformedEmbeddedState,
}

/// What a comment begins with, before the state.
pub open spec fn opening() -> Seq<char> {
    seq!['<', '!', '-', '-', ' ']
}

/// What a comment ends with, after the state.
pub open spec fn closing() -> Seq<char> {
    seq![' ', '-', '-', '>']
}

/// The comment that carries `payload`.
pub open spec fn framed(payload: Seq<char>) -> Seq<char> {
    opening() + payload + closing()
}

/// Whether `comment` begins and ends as a comment that carries a state.
pub open spec fn is_framed(comment: Seq<char>) -> bool {
    &&& comment.len() >= 9
    &&& comment.subrange(0, 5) == opening()
    &&& comment.subrange(comment.len() - 4, comment.len() as int) == closing()
}

/// What a comment carries: the text between its opening and its closing.
pub open spec fn payload_of(comment: Seq<char>) -> Seq<char> {
    comment.subrange(5, comment.len() - 4)
}

/// A payload that is framed and then unframed comes back unchanged.
pub proof fn lemma_frame_round_trip(payload: Seq<char>)
    ensures
        is_framed(framed(payload)),
        payload_of(framed(payload)) == payload,
{
    let c = framed(payload);
    assert(c.len() == payload.len() + 9);
    assert(c.subrange(0, 5) =~= opening());
    assert(c.subrange(c.len() - 4, c.len() as int) =~= closing());
    assert(c.subrange(5, c.len() - 4) =~= payload);
}

/// A comment carries one payload only: what was unframed, framed again, is
/// the comment.
pub proof fn lemma_unframe_then_frame(comment: Seq<char>)
    requires
        is_framed(comment),
    ensures
        framed(payload_of(comment)) == comment,
{
    let c = framed(payload_of(comment));
    assert(c.len() == comment.len());
    assert forall|i: int| 0 <= i < c.len() implies c[i] == comment[i] by {
        if i < 5 {
            assert(comment.subrange(0, 5)[i] == opening()[i]);
        } else if i >= c.len() - 4 {
            let j = i - (c.len() - 4);
            assert(comment.subrange(comment.len() - 4, comment.len() as int)[j] == closing()[j]);
        }
    }
    assert(c =~= comment);
}

/// Takes the state out of a comment as the document holds it, delimiters
/// included.
pub fn decode_comment(comment: &str) -> (r: Result<String, CodecError>)
    ensures
        match r {
            Ok(payload) => is_framed(comment@) && payload@ == payload_of(comment@),
            Err(e) => e == CodecError::MalformedEmbeddedState && !is_framed(comment@),
        },
{
    let n: usize = comment.unicode_len();
    if n < 9 {
        return Err(CodecError::MalformedEmbeddedState);
    }
    let good = comment.get_char(0) == '<' && comment.get_char(1) == '!' && comment.get_char(2)
        == '-' && comment.get_char(3) == '-' && comment.get_char(4) == ' ' && comment.get_char(
        n - 4,
    ) == ' ' && comment.get_char(n - 3) == '-' && comment.get_char(n - 2) == '-'
        && comment.get_char(n - 1) == '>';
    proof {
        let c = comment@;
        let head = c.subrange(0, 5);
        let tail = c.subrange(c.len() - 4, c.len() as int);
        if good {
            assert(head =~= opening());
            assert(tail =~= closing());
        } else {
            if head == opening() && tail == closing() {
                assert(head[0] == c[0] && head[1] == c[1] && head[2] == c[2] && head[3] == c[3]
                    && head[4] == c[4]);
                assert(tail[0] == c[n - 4] && tail[1] == c[n - 3] && tail[2] == c[n - 2]
                    && tail[3] == c[n - 1]);
                assert(false);
            }
        }
    }
    if !good {
        return Err(CodecError::MalformedEmbeddedState);
    }
    Ok(comment.substring_char(5, n - 4).to_owned())
}

/// The kinds of node that a document is read as.
#[derive(Debug, PartialEq, Eq, Structural, Clone, Copy)]
pub enum NodeKind {
    Error,
    Tag,
    Text,
    Comment,
    Declaration,
    Instruction,
}

/// One node of a document: its kind and its text. For a tag the text is its
/// name, for an error it is empty, for the others it is the node as written.
#[derive(Debug, PartialEq, Eq)]
pub struct Node {
    pub kind: NodeKind,
    pub text: String,
}

/// The kind and the text of node `n` of the document `content`, counted from
/// zero, as the parser reads it; nothing where the document has ended before.
pub uninterp spec fn node_at(content: Seq<char>, n: nat) -> Option<(NodeKind, Seq<char>)>;

/// Starts `svg::parser::Parser` on `content` and takes what it yields in
/// place `n`. The contract says that this node depends on the document and
/// the place alone.
#[verifier::external_body]
fn read_node(content: &str, n: usize) -> (node: Option<Node>)
    ensures
        match node_at(content@, n as nat) {
            None => node.is_none(),
            Some((kind, text)) => {
                &&& node.is_some()
                &&& node.unwrap().kind == kind
                &&& node.unwrap().text@ == text
            },
        },
{
    match Parser::new(content).nth(n)? {
        Event::Error(_) => Some(Node { kind: NodeKind::Error, text: String::new() }),
        Event::Tag(name, _, _) => Some(Node { kind: NodeKind::Tag, text: name.to_owned() }),
        Event::Text(text) => Some(Node { kind: NodeKind::Text, text: text.to_owned() }),
        Event::Comment(text) => Some(Node { kind: NodeKind::Comment, text: text.to_owned() }),
        Event::Declaration(text) => Some(Node { kind: NodeKind::Declaration, text: text.to_owned() }),
        Event::Instruction(text) => Some(Node { kind: NodeKind::Instruction, text: text.to_owned() }),
    }
}

/// Calls `svg::node::Comment::new` and writes the node out. The contract says
/// that the text is the payload between the opening and the closing of a
/// comment.
#[verifier::external_body]
fn comment_text(payload: &str) -> (text: String)
    ensures
        text@ == framed(payload@),
{
    svg::node::Comment::new(payload).to_string()
}

/// The first comment among the nodes of `content` from place `n` up to place
/// `limit`, unless the document ends before one is found. A stretch that the
/// parser cannot read is passed over like any other node.
pub open spec fn first_comment(content: Seq<char>, n: nat, limit: nat) -> Option<Seq<char>>
    decreases limit + 1 - n,
{
    if n > limit {
        None
    } else {
        match node_at(content, n) {
            None => None,
            Some((kind, text)) => match kind {
                NodeKind::Comment => Some(text),
                _ => first_comment(content, n + 1, limit),
            },
        }
    }
}

/// The comment that carries the state of the document `content`: its first
/// comment. A document has no more nodes than characters, which bounds the
/// search.
pub open spec fn state_comment(content: Seq<char>) -> Option<Seq<char>> {
    first_comment(content, 0, content.len())
}

/// What reading the state from a document gives, by the comment found.
pub open spec fn is_loaded(found: Option<Seq<char>>, r: Result<String, CodecError>) -> bool {
    match found {
        None => r == Err::<String, CodecError>(CodecError::EmbeddedStateNotFound),
        Some(comment) => match r {
            Ok(payload) => is_framed(comment) && payload@ == payload_of(comment),
            Err(e) => e == CodecError::MalformedEmbeddedState && !is_framed(comment),
        },
    }
}

/// The comment to put into a document so that it carries `payload`.
pub fn embed(payload: &str) -> (text: String)
    ensures
        text@ == framed(payload@),
        is_framed(text@),
        payload_of(text@) == payload@,
{
    proof {
        lemma_frame_round_trip(payload@);
    }
    comment_text(payload)
}

/// Reads the state that the document `content` carries: the payload of its
/// first comment.
pub fn load(content: &str) -> (r: Result<String, CodecError>)
    ensures
        is_loaded(state_comment(content@), r),
{
    let limit: usize = content.unicode_len();
    let mut n: usize = 0;
    loop
        invariant
            n <= limit,
            limit == content@.len(),
            state_comment(content@) == first_comment(content@, n as nat, limit as nat),
        decreases limit - n,
    {
        match read_node(content, n) {
            None => {
                return Err(CodecError::EmbeddedStateNotFound);
            },
            Some(node) => match node.kind {
                NodeKind::Comment => {
                    return decode_comment(node.text.as_str());
                },
                _ => {},
            },
        }
        if n == limit {
            assert(first_comment(content@, (n + 1) as nat, limit as nat) is None);
            return Err(CodecError::EmbeddedStateNotFound);
        }
        n += 1;
    }
}

} // verus!
