//! Questions and the keys under which their answers are cached.

use vstd::prelude::*;
use crate::name::{canonical_labels, labels_eq, lemma_canonical_decides, DomainName};

verus! {

/// The record type of IPv4 address records.
pub const TYPE_A: u16 = 1;

/// The record type of name-server records.
pub const TYPE_NS: u16 = 2;

/// The Internet class.
pub const CLASS_IN: u16 = 1;

/// What a question asks for, as a value in contracts: the labels of the
/// name, the record type and the class.
pub struct QuestionView {
    pub qname: Seq<Seq<u8>>,
    pub qtype: u16,
    pub qclass: u16,
}

/// The canonical form of a question: the name in lower case, type and class
/// as they are.
pub open spec fn canonical_question(q: QuestionView) -> QuestionView {
    QuestionView { qname: canonical_labels(q.qname), qtype: q.qtype, qclass: q.qclass }
}

/// A question: a name, a record type and a class.
pub struct Question {
    pub qname: DomainName,
    pub qtype: u16,
    pub qclass: u16,
}

impl View for Question {
    type V = QuestionView;

    open spec fn view(&self) -> QuestionView {
        QuestionView { qname: self.qname@, qtype: self.qtype, qclass: self.qclass }
    }
}

impl Question {
    /// A question for records of any class.
    pub fn new(qname: DomainName, qtype: u16, qclass: u16) -> (r: Question)
        ensures
            r@ == (QuestionView { qname: qname@, qtype, qclass }),
    {
        Question { qname, qtype, qclass }
    }

    /// A question for records of the Internet class.
    pub fn new_in(qname: DomainName, qtype: u16) -> (r: Question)
        ensures
            r@ == (QuestionView { qname: qname@, qtype, qclass: CLASS_IN }),
    {
        Question { qname, qtype, qclass: CLASS_IN }
    }

    /// A copy of the question.
    pub fn duplicate(&self) -> (r: Question)
        ensures
            r@ == self@,
    {
        Question { qname: self.qname.duplicate(), qtype: self.qtype, qclass: self.qclass }
    }

    /// The key under which the answer to this question is cached.
    pub fn cache_key(&self) -> (r: CacheKey)
        ensures
            r@ == canonical_question(self@),
    {
        CacheKey { qname: self.qname.canonical(), qtype: self.qtype, qclass: self.qclass }
    }
}

/// The canonical form of a question. Two questions have the same key when
/// their names differ at most in case and type and class agree.
pub struct CacheKey {
    qname: DomainName,
    qtype: u16,
    qclass: u16,
}

impl View for CacheKey {
    type V = QuestionView;

    closed spec fn view(&self) -> QuestionView {
        QuestionView { qname: self.qname@, qtype: self.qtype, qclass: self.qclass }
    }
}

impl CacheKey {
    /// Tells whether two keys are the same key.
    pub fn same(&self, other: &CacheKey) -> (r: bool)
        ensures
            r == (self@ == other@),
    {
        self.qtype == other.qtype && self.qclass == other.qclass && self.qname.same(&other.qname)
    }

    /// A copy of the key.
    pub fn duplicate(&self) -> (r: CacheKey)
        ensures
            r@ == self@,
    {
        CacheKey { qname: self.qname.duplicate(), qtype: self.qtype, qclass: self.qclass }
    }
}

/// Two questions are cached under the same key exactly when their names are
/// the same name, case apart, and their types and classes agree.
pub proof fn lemma_same_key(a: QuestionView, b: QuestionView)
    ensures
        canonical_question(a) == canonical_question(b) <==> labels_eq(a.qname, b.qname) && a.qtype
            == b.qtype && a.qclass == b.qclass,
{
    lemma_canonical_decides(a.qname, b.qname);
}

} // verus!
