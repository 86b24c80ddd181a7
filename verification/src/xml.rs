//! The XML tokenizer that the parser is built on.
//!
//! Everything here is trusted: the tokenizer is the `quick_xml` crate, and
//! Verus does not look inside it. What the tokenizer finds in a text is not
//! stated but named: it depends on the text alone.

use vstd::prelude::*;
use vstd::utf8::{decode_utf8, valid_utf8};

use quick_xml::events::attributes::AttrError;
use quick_xml::events::{BytesDecl, BytesStart, BytesText, Event};
use quick_xml::Reader;

verus! {

/// `quick_xml::Reader`, the tokenizer.
#[verifier::external_type_specification]
#[verifier::external_body]
#[verifier::reject_recursive_types(R)]
pub struct ExReader<R>(Reader<R>);

/// `quick_xml::events::BytesStart`, the inside of a start tag.
#[verifier::external_type_specification]
#[verifier::external_body]
pub struct ExBytesStart<'a>(BytesStart<'a>);

/// `quick_xml::events::BytesText`, escaped character data.
#[verifier::external_type_specification]
#[verifier::external_body]
pub struct ExBytesText<'a>(BytesText<'a>);

/// `quick_xml::events::BytesDecl`, the inside of an XML declaration.
#[verifier::external_type_specification]
#[verifier::external_body]
pub struct ExBytesDecl<'a>(BytesDecl<'a>);

/// `quick_xml::events::attributes::AttrError`, why an attribute is malformed.
#[verifier::external_type_specification]
#[verifier::external_body]
pub struct ExAttrError(AttrError);

/// `quick_xml::Error`, the tokenizer's error.
#[verifier::external_type_specification]
#[verifier::external_body]
pub struct ExXmlError(quick_xml::Error);

/// What the tokenizer reads next. Tags, text and declarations are handed
/// on as the tokenizer gives them; comments, CDATA sections, processing
/// instructions and the DOCTYPE as their raw bytes.
pub enum Token {
    Start(BytesStart<'static>),
    End,
    Empty(BytesStart<'static>),
    Text(BytesText<'static>),
    CData(Vec<u8>),
    Comment(Vec<u8>),
    Declaration(BytesDecl<'static>),
    ProcessingInstruction(Vec<u8>),
    DocType(Vec<u8>),
    Eof,
}

/// What the `n`-th read of a tokenizer on the text `svg` hands out,
/// counting from zero.
pub uninterp spec fn read_at(svg: Seq<char>, n: int) -> Result<Token, quick_xml::Error>;

/// The text that a tokenizer was made on.
pub uninterp spec fn reader_text(reader: Reader<&[u8]>) -> Seq<char>;

/// How often a tokenizer has been read.
pub uninterp spec fn reader_reads(reader: Reader<&[u8]>) -> int;

/// The raw name of a tag.
pub uninterp spec fn raw_name(start: BytesStart) -> Seq<u8>;

/// The attributes of a tag in order, each one as its raw name and raw
/// value or as the reason why it is malformed.
pub uninterp spec fn raw_attributes(start: BytesStart) -> Seq<
    Result<(Seq<u8>, Seq<u8>), AttrError>,
>;

/// A raw attribute value with its escape sequences resolved.
pub uninterp spec fn unescaped_value(raw: Seq<u8>) -> Result<Seq<char>, quick_xml::Error>;

/// Character data with its escape sequences resolved.
pub uninterp spec fn unescaped_text(text: BytesText) -> Result<Seq<char>, quick_xml::Error>;

/// The version that an XML declaration states.
pub uninterp spec fn stated_version(decl: BytesDecl) -> Result<Seq<u8>, quick_xml::Error>;

/// The encoding that an XML declaration states, if it states one.
pub uninterp spec fn stated_encoding(decl: BytesDecl) -> Option<Result<Seq<u8>, AttrError>>;

/// The standalone flag that an XML declaration states, if it states one.
pub uninterp spec fn stated_standalone(decl: BytesDecl) -> Option<Result<Seq<u8>, AttrError>>;

/// The tokenizer's error in words.
pub uninterp spec fn error_words(e: quick_xml::Error) -> Seq<char>;

/// The reason why an attribute is malformed, in words.
pub uninterp spec fn attribute_error_words(e: AttrError) -> Seq<char>;

/// The words in which `std::str::from_utf8` says why bytes are not UTF-8.
pub uninterp spec fn utf8_error_words(bytes: Seq<u8>) -> Seq<char>;

/// The text that `String::from_utf8_lossy` makes of bytes: the text that
/// they encode, with a replacement character in place of whatever is not
/// UTF-8.
pub uninterp spec fn lossy_decoded(bytes: Seq<u8>) -> Seq<char>;

/// The model of what `tag_attributes` hands out.
pub open spec fn found_view(s: Seq<Result<(Vec<u8>, Vec<u8>), AttrError>>) -> Seq<
    Result<(Seq<u8>, Seq<u8>), AttrError>,
> {
    Seq::new(
        s.len(),
        |i: int|
            match s[i] {
                Ok((k, v)) => Ok((k@, v@)),
                Err(e) => Err(e),
            },
    )
}

/// The model of text or the tokenizer's error.
pub open spec fn text_result_view(r: Result<String, quick_xml::Error>) -> Result<
    Seq<char>,
    quick_xml::Error,
> {
    match r {
        Ok(s) => Ok(s@),
        Err(e) => Err(e),
    }
}

/// The model of bytes or the tokenizer's error.
pub open spec fn bytes_result_view(r: Result<Vec<u8>, quick_xml::Error>) -> Result<
    Seq<u8>,
    quick_xml::Error,
> {
    match r {
        Ok(s) => Ok(s@),
        Err(e) => Err(e),
    }
}

/// The model of optional bytes or the reason why they cannot be read.
pub open spec fn stated_view(o: Option<Result<Vec<u8>, AttrError>>) -> Option<
    Result<Seq<u8>, AttrError>,
> {
    match o {
        Some(Ok(b)) => Some(Ok(b@)),
        Some(Err(e)) => Some(Err(e)),
        None => None,
    }
}

/// A tokenizer on the given text, not read yet.
///
/// Trusted: wraps `Reader::from_str`.
#[verifier::external_body]
pub(crate) fn new_reader<'a>(svg: &'a str) -> (r: Reader<&'a [u8]>)
    ensures
        reader_text(r) == svg@,
        reader_reads(r) == 0,
{
    Reader::from_str(svg)
}

/// The next token, or the tokenizer's error.
///
/// Trusted: wraps `Reader::read_event` and tells the variants of its
/// `Event` apart. What is handed out depends on the text and on the
/// number of reads before alone.
#[verifier::external_body]
pub(crate) fn read_token<'a>(reader: &mut Reader<&'a [u8]>) -> (r: Result<Token, quick_xml::Error>)
    ensures
        r == read_at(reader_text(*old(reader)), reader_reads(*old(reader))),
        reader_text(*final(reader)) == reader_text(*old(reader)),
        reader_reads(*final(reader)) == reader_reads(*old(reader)) + 1,
{
    Ok(match reader.read_event()? {
        Event::Start(e) => Token::Start(e.into_owned()),
        Event::End(_) => Token::End,
        Event::Empty(e) => Token::Empty(e.into_owned()),
        Event::Text(e) => Token::Text(e.into_owned()),
        Event::CData(e) => Token::CData(e.to_vec()),
        Event::Comment(e) => Token::Comment(e.to_vec()),
        Event::Decl(e) => Token::Declaration(e.into_owned()),
        Event::PI(e) => Token::ProcessingInstruction(e.to_vec()),
        Event::DocType(e) => Token::DocType(e.to_vec()),
        Event::Eof => Token::Eof,
    })
}

/// The raw name of a tag.
///
/// Trusted: wraps `BytesStart::name`.
#[verifier::external_body]
pub(crate) fn tag_name(start: &BytesStart) -> (r: Vec<u8>)
    ensures
        r@ == raw_name(*start),
{
    start.name().as_ref().to_vec()
}

/// The attributes of a tag in order, each one as its raw name and raw
/// value or with the reason why it is malformed.
///
/// Trusted: wraps `BytesStart::attributes`, runs the iterator to its end
/// and takes the fields `key` and `value` of each `Attribute`.
#[verifier::external_body]
pub(crate) fn tag_attributes(start: &BytesStart) -> (r: Vec<Result<(Vec<u8>, Vec<u8>), AttrError>>)
    ensures
        found_view(r@) == raw_attributes(*start),
{
    start.attributes().map(|r| r.map(|a| (a.key.as_ref().to_vec(), a.value.into_owned()))).collect()
}

/// The value of an attribute with its escape sequences resolved, from the
/// raw value.
///
/// Trusted: wraps `Attribute::unescape_value`, on an attribute that holds
/// the raw value.
#[verifier::external_body]
pub(crate) fn attribute_value(raw: &Vec<u8>) -> (r: Result<String, quick_xml::Error>)
    ensures
        text_result_view(r) == unescaped_value(raw@),
{
    let key = quick_xml::name::QName(b"");
    let value = std::borrow::Cow::Borrowed(raw.as_slice());
    Ok(quick_xml::events::attributes::Attribute { key, value }.unescape_value()?.into_owned())
}

/// Character data with its escape sequences resolved.
///
/// Trusted: wraps `BytesText::unescape`.
#[verifier::external_body]
pub(crate) fn text_unescaped(text: &BytesText) -> (r: Result<String, quick_xml::Error>)
    ensures
        text_result_view(r) == unescaped_text(*text),
{
    Ok(text.unescape()?.into_owned())
}

/// The version that an XML declaration states.
///
/// Trusted: wraps `BytesDecl::version`.
#[verifier::external_body]
pub(crate) fn declaration_version(decl: &BytesDecl) -> (r: Result<Vec<u8>, quick_xml::Error>)
    ensures
        bytes_result_view(r) == stated_version(*decl),
{
    Ok(decl.version()?.into_owned())
}

/// The encoding that an XML declaration states, if it states one.
///
/// Trusted: wraps `BytesDecl::encoding`.
#[verifier::external_body]
pub(crate) fn declaration_encoding(decl: &BytesDecl) -> (r: Option<Result<Vec<u8>, AttrError>>)
    ensures
        stated_view(r) == stated_encoding(*decl),
{
    match decl.encoding() {
        Some(Ok(v)) => Some(Ok(v.into_owned())),
        Some(Err(e)) => Some(Err(e)),
        None => None,
    }
}

/// The standalone flag that an XML declaration states, if it states one.
///
/// Trusted: wraps `BytesDecl::standalone`.
#[verifier::external_body]
pub(crate) fn declaration_standalone(decl: &BytesDecl) -> (r: Option<Result<Vec<u8>, AttrError>>)
    ensures
        stated_view(r) == stated_standalone(*decl),
{
    match decl.standalone() {
        Some(Ok(v)) => Some(Ok(v.into_owned())),
        Some(Err(e)) => Some(Err(e)),
        None => None,
    }
}

/// The tokenizer's error in words.
///
/// Trusted: wraps the `Display` of `quick_xml::Error`.
#[verifier::external_body]
pub(crate) fn xml_error_text(e: &quick_xml::Error) -> (r: String)
    ensures
        r@ == error_words(*e),
{
    format!("{}", e)
}

/// The reason why an attribute is malformed, in words.
///
/// Trusted: wraps the `Display` of `AttrError`.
#[verifier::external_body]
pub(crate) fn attribute_error_text(e: &AttrError) -> (r: String)
    ensures
        r@ == attribute_error_words(*e),
{
    format!("{}", e)
}

/// The text that the bytes encode, or the reason why they encode none.
///
/// Trusted: wraps `std::str::from_utf8`, which succeeds exactly on valid
/// UTF-8 and then gives the text that the bytes encode. Its error is
/// handed out in its own words, which depend on the bytes alone.
#[verifier::external_body]
pub(crate) fn utf8_text(bytes: &Vec<u8>) -> (r: Result<String, String>)
    ensures
        r is Ok <==> valid_utf8(bytes@),
        r matches Ok(s) ==> s@ == decode_utf8(bytes@),
        r matches Err(t) ==> t@ == utf8_error_words(bytes@),
{
    match std::str::from_utf8(bytes) {
        Ok(s) => Ok(s.to_owned()),
        Err(e) => Err(format!("{}", e)),
    }
}

/// The text that the bytes encode, with a replacement character in place
/// of whatever is not UTF-8.
///
/// Trusted: wraps `String::from_utf8_lossy`, whose result depends on the
/// bytes alone and is the text that they encode where they are valid
/// UTF-8.
#[verifier::external_body]
pub(crate) fn lossy_text(bytes: &Vec<u8>) -> (r: String)
    ensures
        r@ == lossy_decoded(bytes@),
        valid_utf8(bytes@) ==> r@ == decode_utf8(bytes@),
{
    String::from_utf8_lossy(bytes).into_owned()
}

} // verus!
