//! Splicing of text: strings inserted into a string, at byte offsets.

use crate::layout::{inserted, lemma_arranged_bytes, lemma_inserted_add, lemma_spliced_len};
use crate::splice::{
    arranged, landing, lemma_arranged, lemma_clean_run, lemma_placed, placed, slot, spliced,
    spliced_from, Insertion,
};
use crate::Inserter;
use vstd::prelude::*;
use vstd::string::StringSliceAdditionalSpecFns;
use vstd::utf8::{
    decode_utf8, decode_utf8_encode_utf8, encode_utf8, encode_utf8_valid_utf8, is_char_boundary,
    is_char_boundary_iff_not_is_continuation_byte, is_char_boundary_start_end_of_seq, valid_utf8,
    valid_utf8_concat, valid_utf8_split,
};

verus! {

/// `std::string::FromUtf8Error`, carried through as the reason why spliced
/// bytes are no text.
#[verifier::external_type_specification]
#[verifier::external_body]
pub struct ExFromUtf8Error(std::string::FromUtf8Error);

/// `String::from_utf8` gives the text that the bytes encode, and fails exactly
/// when the bytes are not well-formed UTF-8.
pub assume_specification[ String::from_utf8 ](vec: Vec<u8>) -> (r: Result<
    String,
    std::string::FromUtf8Error,
>)
    ensures
        r is Ok <==> valid_utf8(vec@),
        r matches Ok(s) ==> s@ == decode_utf8(vec@),
;

/// Why a splice of text failed.
#[derive(Debug)]
pub enum Error {
    /// A read or a write failed.
    IoError(std::io::Error),
    /// The spliced bytes are not well-formed text.
    Utf8Error(std::string::FromUtf8Error),
}

impl From<std::io::Error> for Error {
    fn from(err: std::io::Error) -> (e: Error) {
        Error::IoError(err)
    }
}

impl vstd::std_specs::convert::FromSpecImpl<std::io::Error> for Error {
    open spec fn obeys_from_spec() -> bool {
        true
    }

    open spec fn from_spec(err: std::io::Error) -> Error {
        Error::IoError(err)
    }
}

impl From<std::string::FromUtf8Error> for Error {
    fn from(err: std::string::FromUtf8Error) -> (e: Error) {
        Error::Utf8Error(err)
    }
}

impl vstd::std_specs::convert::FromSpecImpl<std::string::FromUtf8Error> for Error {
    open spec fn obeys_from_spec() -> bool {
        true
    }

    open spec fn from_spec(err: std::string::FromUtf8Error) -> Error {
        Error::Utf8Error(err)
    }
}

/// The insertion that a string registered at an offset stands for.
pub open spec fn text_insertion(offset: usize, text: &str) -> Insertion {
    Insertion { offset: offset as nat, content: text.spec_bytes(), fails: false }
}

/// Whether every insertion holds well-formed text.
pub open spec fn all_text(plan: Seq<Insertion>) -> bool {
    forall|k: int| 0 <= k < plan.len() ==> valid_utf8((#[trigger] plan[k]).content)
}

/// Whether every insertion is due between two characters of the text, or at
/// its end or beyond it.
pub open spec fn between_characters(text: Seq<u8>, plan: Seq<Insertion>) -> bool {
    forall|k: int|
        0 <= k < plan.len() ==> (#[trigger] plan[k]).offset >= text.len() || is_char_boundary(
            text,
            plan[k].offset as int,
        )
}

/// The bytes between two character boundaries of a text are text.
proof fn lemma_text_between(text: Seq<u8>, a: int, b: int)
    requires
        valid_utf8(text),
        0 <= a <= b <= text.len(),
        is_char_boundary(text, a),
        is_char_boundary(text, b),
    ensures
        valid_utf8(text.subrange(a, b)),
{
    let front = text.subrange(0, b);
    valid_utf8_split(text, b);
    if a < b {
        is_char_boundary_iff_not_is_continuation_byte(text, a);
        assert(front[a] == text[a]);
        is_char_boundary_iff_not_is_continuation_byte(front, a);
    } else {
        is_char_boundary_start_end_of_seq(front);
    }
    valid_utf8_split(front, a);
    assert(front.subrange(a, front.len() as int) =~= text.subrange(a, b));
}

/// Text spliced into text between its characters is text.
pub proof fn lemma_text_spliced(text: Seq<u8>, from: int, plan: Seq<Insertion>)
    requires
        valid_utf8(text),
        0 <= from <= text.len(),
        is_char_boundary(text, from),
        all_text(plan),
        between_characters(text, plan),
    ensures
        valid_utf8(spliced_from(text, from, plan)),
    decreases plan.len(),
{
    let len = text.len() as int;
    is_char_boundary_start_end_of_seq(text);
    if plan.len() == 0 {
        lemma_text_between(text, from, len);
    } else {
        let rest = plan.drop_first();
        let at = landing(text.len(), from, plan[0].offset);
        assert(valid_utf8(plan[0].content));
        assert(plan[0].offset >= text.len() || is_char_boundary(text, plan[0].offset as int));
        assert forall|k: int| 0 <= k < rest.len() implies valid_utf8((#[trigger] rest[k]).content)
            && (rest[k].offset >= text.len() || is_char_boundary(text, rest[k].offset as int)) by {
            assert(rest[k] == plan[k + 1]);
        }
        lemma_text_between(text, from, at);
        lemma_text_spliced(text, at, rest);
        valid_utf8_concat(text.subrange(from, at), plan[0].content);
        valid_utf8_concat(
            text.subrange(from, at) + plan[0].content,
            spliced_from(text, at, rest),
        );
    }
}

/// The plan that registered insertions make holds text where they all do,
/// and is due between characters where they all are.
pub proof fn lemma_arranged_text(text: Seq<u8>, registered: Seq<Insertion>)
    ensures
        all_text(registered) ==> all_text(arranged(registered)),
        between_characters(text, registered) ==> between_characters(text, arranged(registered)),
    decreases registered.len(),
{
    if registered.len() > 0 {
        let front = registered.drop_last();
        let item = registered[registered.len() - 1];
        let plan = arranged(front);
        let grown = placed(plan, item);
        let k = slot(plan, item.offset);
        lemma_arranged_text(text, front);
        lemma_placed(plan, item);
        assert forall|i: int| 0 <= i < grown.len() implies #[trigger] grown[i] == (if i < k {
            plan[i]
        } else if i == k {
            item
        } else {
            plan[i - 1]
        }) by {}
        if all_text(registered) {
            assert(valid_utf8(item.content));
            assert forall|i: int| 0 <= i < front.len() implies valid_utf8(
                (#[trigger] front[i]).content,
            ) by {
                assert(front[i] == registered[i]);
            }
        }
        if between_characters(text, registered) {
            assert(item.offset >= text.len() || is_char_boundary(text, item.offset as int));
            assert forall|i: int| 0 <= i < front.len() implies (#[trigger] front[i]).offset
                >= text.len() || is_char_boundary(text, front[i].offset as int) by {
                assert(front[i] == registered[i]);
            }
        }
    }
}

/// Keeps track of the origin text and of all points of insertion.
pub struct StringInserter<'o, 'i> {
    origin: &'o str,
    insertions: Vec<(usize, &'i str)>,
}

impl<'o, 'i> StringInserter<'o, 'i> {
    /// The origin text.
    pub closed spec fn origin(&self) -> &'o str {
        self.origin
    }

    /// The insertions in the order in which they were registered.
    pub closed spec fn registered(&self) -> Seq<Insertion> {
        self.insertions@.map_values(|e: (usize, &'i str)| text_insertion(e.0, e.1))
    }

    /// The bytes of the spliced text: the origin with every registered
    /// string put in at its offset, those due at one offset in the order of
    /// their registration.
    pub open spec fn output(&self) -> Seq<u8> {
        spliced(self.origin().spec_bytes(), arranged(self.registered()))
    }

    /// A splicer of the text `origin`, with nothing to insert yet.
    pub fn new(origin: &'o str) -> (s: Self)
        ensures
            s.origin() == origin,
            s.registered() == Seq::<Insertion>::empty(),
    {
        let s = StringInserter { origin, insertions: Vec::new() };
        assert(s.registered() =~= Seq::<Insertion>::empty());
        s
    }

    /// Registers `source` for insertion at byte `position` of the origin.
    pub fn insert(self, position: usize, source: &'i str) -> (s: Self)
        ensures
            s.origin() == self.origin(),
            s.registered() == self.registered().push(text_insertion(position, source)),
    {
        let StringInserter { origin, mut insertions } = self;
        insertions.push((position, source));
        let s = StringInserter { origin, insertions };
        assert(s.registered() =~= self.registered().push(text_insertion(position, source)));
        s
    }

    /// The number of bytes of the spliced text, where a `usize` can hold it.
    fn size(&self) -> (n: Option<usize>)
        ensures
            n matches Some(len) ==> len == self.output().len(),
            n is None ==> self.output().len() > usize::MAX,
    {
        let ghost all = self.registered();
        let mut total: usize = self.origin.as_bytes().len();
        let count = self.insertions.len();
        let mut i: usize = 0;
        proof {
            lemma_arranged_bytes(all);
            lemma_spliced_len(self.origin.spec_bytes(), arranged(all));
            assert(all.take(0) =~= Seq::<Insertion>::empty());
        }
        while i < count
            invariant
                i <= count,
                count == self.insertions.len(),
                all == self.registered(),
                total == self.origin().spec_bytes().len() + inserted(all.take(i as int)),
                self.output().len() == self.origin().spec_bytes().len() + inserted(all),
            decreases count - i,
        {
            let (_, item) = self.insertions[i];
            proof {
                let one = seq![all[i as int]];
                assert(all.take(i + 1) =~= all.take(i as int) + one);
                assert(all.take(i + 1) + all.skip(i + 1) =~= all);
                lemma_inserted_add(all.take(i as int), one);
                lemma_inserted_add(all.take(i + 1), all.skip(i + 1));
                assert(one.drop_first() =~= Seq::<Insertion>::empty());
                assert(inserted(one.drop_first()) == 0);
                assert(inserted(one) == item.spec_bytes().len());
            }
            match total.checked_add(item.as_bytes().len()) {
                Some(more) => {
                    total = more;
                },
                None => {
                    return None;
                },
            }
            i += 1;
        }
        assert(all.take(count as int) =~= all);
        Some(total)
    }

    /// Runs the splice, and gives the spliced text.
    ///
    /// The call succeeds exactly when the spliced bytes are well-formed
    /// UTF-8, as they are when every string was registered for a place
    /// between two characters of the origin. The text that it then gives is
    /// the one that these bytes encode.
    #[verifier::loop_isolation(false)]
    pub fn execute(self) -> (r: Result<String, Error>)
        ensures
            r is Ok <==> valid_utf8(self.output()),
            r matches Ok(text) ==> text@ == decode_utf8(self.output()) && encode_utf8(text@)
                == self.output(),
            r matches Err(e) ==> e is Utf8Error,
            between_characters(self.origin().spec_bytes(), self.registered()) ==> r is Ok,
    {
        let mut buffer: Vec<u8> = Vec::new();
        match self.size() {
            Some(size) => {
                let _ = buffer.try_reserve(size);
            },
            None => {},
        }
        let mut inserter = Inserter::new(self.origin.as_bytes(), &mut buffer);
        let ghost first = inserter;
        let n = self.insertions.len();
        let mut i: usize = 0;
        while i < n
            invariant
                i <= n,
                n == self.insertions.len(),
                inserter.origin() == first.origin(),
                *inserter.target() == *first.target(),
                *final(inserter.target()) == *final(first.target()),
                inserter.plan() == arranged(self.registered().take(i as int)),
            decreases n - i,
        {
            let (position, item) = self.insertions[i];
            proof {
                let upto = self.registered().take(i + 1);
                assert(upto.drop_last() =~= self.registered().take(i as int));
                assert(upto.last() == text_insertion(position, item));
            }
            inserter = inserter.insert(position, item.as_bytes());
            i += 1;
        }
        proof {
            let text = self.origin.spec_bytes();
            let all = self.registered();
            assert(all.take(n as int) =~= all);
            lemma_arranged(all);
            lemma_clean_run(text, 0, arranged(all));
            encode_utf8_valid_utf8(self.origin@);
            if valid_utf8(self.output()) {
                decode_utf8_encode_utf8(self.output());
            }
            if between_characters(text, all) {
                assert forall|k: int| 0 <= k < all.len() implies valid_utf8(
                    (#[trigger] all[k]).content,
                ) by {
                    encode_utf8_valid_utf8(self.insertions@[k].1@);
                }
                lemma_arranged_text(text, all);
                is_char_boundary_start_end_of_seq(text);
                lemma_text_spliced(text, 0, arranged(all));
            }
        }
        match inserter.execute() {
            Ok(()) => {},
            Err(e) => {
                return Err(Error::from(e));
            },
        }
        match String::from_utf8(buffer) {
            Ok(text) => Ok(text),
            Err(e) => Err(Error::from(e)),
        }
    }
}

} // verus!
