//! Declared functions of a document: the names that the function-declaration
//! pattern captures, decoded from the source bytes.

use crate::error::AnalysisError;
use crate::syntax::{declared_name_spans, Input, ParserService};
use vstd::prelude::*;
use vstd::utf8::{decode_utf8, valid_utf8};

verus! {

/// A declared function.
pub struct Function {
    pub name: String,
}

/// The declared functions of one document, in document order.
pub struct AST {
    pub functions: Vec<Function>,
}

impl View for AST {
    type V = Seq<Seq<char>>;

    open spec fn view(&self) -> Seq<Seq<char>> {
        self.functions@.map(|i: int, f: Function| f.name@)
    }
}

impl AST {
    /// A copy with the same names.
    pub fn duplicate(&self) -> (r: AST)
        ensures
            r@ == self@,
    {
        let mut functions: Vec<Function> = Vec::new();
        let mut i: usize = 0;
        while i < self.functions.len()
            invariant
                i <= self.functions.len(),
                functions@.map(|k: int, f: Function| f.name@) == self@.take(i as int),
            decreases self.functions.len() - i,
        {
            let ghost before = functions@.map(|k: int, f: Function| f.name@);
            let name = self.functions[i].name.clone();
            functions.push(Function { name });
            assert(functions@.map(|k: int, f: Function| f.name@) =~= before.push(self@[i as int]));
            assert(self@.take(i + 1) =~= self@.take(i as int).push(self@[i as int]));
            i = i + 1;
        }
        assert(self@.take(i as int) =~= self@);
        AST { functions }
    }

    /// Whether both hold the same names in the same order.
    pub fn same_names(&self, other: &AST) -> (r: bool)
        ensures
            r == (self@ == other@),
    {
        if self.functions.len() != other.functions.len() {
            proof {
                assert(self@.len() != other@.len());
            }
            return false;
        }
        let mut i: usize = 0;
        while i < self.functions.len()
            invariant
                i <= self.functions.len() == other.functions.len(),
                self@.take(i as int) == other@.take(i as int),
            decreases self.functions.len() - i,
        {
            if self.functions[i].name != other.functions[i].name {
                proof {
                    assert(self@[i as int] != other@[i as int]);
                }
                return false;
            }
            proof {
                assert(self@.take(i + 1) =~= self@.take(i as int).push(self@[i as int]));
                assert(other@.take(i + 1) =~= other@.take(i as int).push(other@[i as int]));
            }
            i = i + 1;
        }
        proof {
            assert(self@.take(i as int) =~= self@);
            assert(other@.take(i as int) =~= other@);
        }
        true
    }

    /// The function names, in order.
    pub fn names(&self) -> (r: Vec<String>)
        ensures
            r@.map(|i: int, s: String| s@) == self@,
    {
        let mut names: Vec<String> = Vec::new();
        let mut i: usize = 0;
        while i < self.functions.len()
            invariant
                i <= self.functions.len(),
                names@.map(|k: int, s: String| s@) == self@.take(i as int),
            decreases self.functions.len() - i,
        {
            let ghost before = names@.map(|k: int, s: String| s@);
            let name = self.functions[i].name.clone();
            names.push(name);
            assert(names@.map(|k: int, s: String| s@) =~= before.push(self@[i as int]));
            assert(self@.take(i + 1) =~= self@.take(i as int).push(self@[i as int]));
            i = i + 1;
        }
        assert(self@.take(i as int) =~= self@);
        names
    }
}

/// The text that the byte span `span` of `src` decodes to, if it lies within
/// `src` and is well-formed UTF-8.
pub open spec fn span_text(src: Seq<u8>, span: (usize, usize)) -> Option<Seq<char>> {
    if span.0 <= span.1 && span.1 <= src.len() && valid_utf8(
        src.subrange(span.0 as int, span.1 as int),
    ) {
        Some(decode_utf8(src.subrange(span.0 as int, span.1 as int)))
    } else {
        None
    }
}

/// The texts of all `spans` in order, or none if one of them has no text.
pub open spec fn span_texts(src: Seq<u8>, spans: Seq<(usize, usize)>) -> Option<Seq<Seq<char>>>
    decreases spans.len(),
{
    if spans.len() == 0 {
        Some(seq![])
    } else {
        match span_texts(src, spans.drop_last()) {
            Some(names) => match span_text(src, spans.last()) {
                Some(t) => Some(names.push(t)),
                None => None,
            },
            None => None,
        }
    }
}

/// The declared function names of `src`, or none when a captured span is not
/// text of `src`.
pub open spec fn declared_functions(src: Seq<u8>) -> Option<Seq<Seq<char>>> {
    span_texts(src, declared_name_spans(src))
}

/// Relies on `String::from_utf8`: succeeds exactly on well-formed UTF-8, and
/// then holds the characters it encodes.
#[verifier::external_body]
fn string_from_utf8(b: Vec<u8>) -> (r: Option<String>)
    ensures
        r is Some <==> valid_utf8(b@),
        r matches Some(s) ==> s@ == decode_utf8(b@),
{
    String::from_utf8(b).ok()
}

/// Decodes the byte span `span` of `src`; fails with `InternalError` when it
/// lies outside `src` or is not UTF-8.
pub fn decode_span(src: &Vec<u8>, span: (usize, usize)) -> (r: Result<String, AnalysisError>)
    ensures
        r is Ok <==> span_text(src@, span) is Some,
        r matches Ok(s) ==> s@ == span_text(src@, span)->0,
        r matches Err(e) ==> e == AnalysisError::InternalError,
{
    let (start, end) = span;
    if start > end || end > src.len() {
        return Err(AnalysisError::InternalError);
    }
    let mut bytes: Vec<u8> = Vec::new();
    let mut i: usize = start;
    while i < end
        invariant
            start <= i <= end <= src.len(),
            bytes@ == src@.subrange(start as int, i as int),
        decreases end - i,
    {
        bytes.push(src[i]);
        i = i + 1;
        assert(bytes@ =~= src@.subrange(start as int, i as int));
    }
    match string_from_utf8(bytes) {
        Some(s) => Ok(s),
        None => Err(AnalysisError::InternalError),
    }
}

/// The functions named by `spans` in `src`, in order; fails with
/// `InternalError` when a span is not text of `src`.
pub fn names_of_spans(src: &Vec<u8>, spans: &Vec<(usize, usize)>) -> (r: Result<AST, AnalysisError>)
    ensures
        r is Ok <==> span_texts(src@, spans@) is Some,
        r matches Ok(a) ==> a@ == span_texts(src@, spans@)->0,
        r matches Err(e) ==> e == AnalysisError::InternalError,
{
    let mut functions: Vec<Function> = Vec::new();
    let mut i: usize = 0;
    while i < spans.len()
        invariant
            i <= spans.len(),
            span_texts(src@, spans@.take(i as int)) == Some(
                functions@.map(|k: int, f: Function| f.name@),
            ),
        decreases spans.len() - i,
    {
        let ghost before = functions@.map(|k: int, f: Function| f.name@);
        assert(spans@.take(i + 1).drop_last() =~= spans@.take(i as int));
        match decode_span(src, spans[i]) {
            Ok(name) => {
                functions.push(Function { name });
                assert(functions@.map(|k: int, f: Function| f.name@) =~= before.push(
                    span_text(src@, spans@[i as int])->0,
                ));
            },
            Err(e) => {
                proof {
                    lemma_span_texts_fail(src@, spans@, i as int + 1);
                    assert(spans@.take(spans@.len() as int) =~= spans@);
                }
                return Err(e);
            },
        }
        i = i + 1;
    }
    assert(spans@.take(i as int) =~= spans@);
    Ok(AST { functions })
}

/// Once a prefix of the spans has no text, no longer prefix has one.
proof fn lemma_span_texts_fail(src: Seq<u8>, spans: Seq<(usize, usize)>, i: int)
    requires
        0 <= i <= spans.len(),
        span_texts(src, spans.take(i)) is None,
    ensures
        span_texts(src, spans.take(spans.len() as int)) is None,
    decreases spans.len() - i,
{
    if i < spans.len() {
        assert(spans.take(i + 1).drop_last() =~= spans.take(i));
        lemma_span_texts_fail(src, spans, i + 1);
    }
}

/// `names` are the texts of some byte spans of `src`.
pub open spec fn texts_of(src: Seq<u8>, names: Seq<Seq<char>>) -> bool {
    exists|spans: Seq<(usize, usize)>| span_texts(src, spans) == Some(names)
}

/// The declared functions of a parsed document, in document order; fails with
/// `InternalError` when the tree and the bytes disagree. For a tree parsed
/// from scratch the result is fixed by the bytes.
pub fn declared_function_names(service: &ParserService, input: &Input) -> (r: Result<
    AST,
    AnalysisError,
>)
    ensures
        input.from_scratch() ==> (r is Ok <==> declared_functions(input@) is Some),
        input.from_scratch() ==> (r matches Ok(a) ==> a@ == declared_functions(input@)->0),
        r matches Ok(a) ==> texts_of(input@, a@),
        r matches Err(e) ==> e == AnalysisError::InternalError,
{
    let spans = service.function_name_spans(input);
    let r = names_of_spans(input.bytes(), &spans);
    proof {
        if r is Ok {
            assert(span_texts(input@, spans@) == Some(r->Ok_0@));
        }
    }
    r
}

} // verus!
