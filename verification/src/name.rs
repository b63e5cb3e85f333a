//! Domain names as sequences of labels.

use vstd::prelude::*;

verus! {

/// The longest label a domain name may hold, in octets.
pub const MAX_LABEL_LEN: usize = 63;

/// The longest domain name in wire format, in octets.
pub const MAX_NAME_LEN: usize = 255;

/// The lower-case form of one octet: ASCII capitals are folded, all other
/// octets stay.
pub open spec fn lower(b: u8) -> u8 {
    if 65 <= b <= 90 {
        (b + 32) as u8
    } else {
        b
    }
}

/// Two labels are equal when they differ at most in ASCII case.
pub open spec fn label_eq(a: Seq<u8>, b: Seq<u8>) -> bool {
    &&& a.len() == b.len()
    &&& forall|i: int| 0 <= i < a.len() ==> lower(#[trigger] a[i]) == lower(b[i])
}

/// Two names are equal when they have the same number of labels and the
/// labels are pairwise equal.
pub open spec fn labels_eq(a: Seq<Seq<u8>>, b: Seq<Seq<u8>>) -> bool {
    &&& a.len() == b.len()
    &&& forall|i: int| 0 <= i < a.len() ==> label_eq(#[trigger] a[i], b[i])
}

/// `suffix` names `a` itself or one of its ancestors.
pub open spec fn labels_end_with(a: Seq<Seq<u8>>, suffix: Seq<Seq<u8>>) -> bool {
    &&& suffix.len() <= a.len()
    &&& labels_eq(a.skip(a.len() - suffix.len()), suffix)
}

/// A label with every octet in lower case.
pub open spec fn lower_label(a: Seq<u8>) -> Seq<u8> {
    Seq::new(a.len(), |i: int| lower(a[i]))
}

/// The canonical form of a name: every label in lower case.
pub open spec fn canonical_labels(a: Seq<Seq<u8>>) -> Seq<Seq<u8>> {
    Seq::new(a.len(), |i: int| lower_label(a[i]))
}

/// The length of a name in wire format: one length octet per label, the
/// labels, and the root label that ends the name.
pub open spec fn wire_len(labels: Seq<Seq<u8>>) -> nat
    decreases labels.len(),
{
    if labels.len() == 0 {
        1
    } else {
        1 + labels[0].len() + wire_len(labels.drop_first())
    }
}

/// What a name must satisfy: no empty label, no label over 63 octets, and a
/// wire format of at most 255 octets.
pub open spec fn valid_labels(labels: Seq<Seq<u8>>) -> bool {
    &&& forall|i: int| 0 <= i < labels.len() ==> 1 <= (#[trigger] labels[i]).len() <= 63
    &&& wire_len(labels) <= 255
}

/// The uncompressed wire format of a name.
pub open spec fn encode_labels(labels: Seq<Seq<u8>>) -> Seq<u8>
    decreases labels.len(),
{
    if labels.len() == 0 {
        seq![0u8]
    } else {
        seq![labels[0].len() as u8] + labels[0] + encode_labels(labels.drop_first())
    }
}

/// The labels that an uncompressed wire format spells out, if it is one name
/// and nothing else.
pub open spec fn decode_labels(wire: Seq<u8>) -> Option<Seq<Seq<u8>>>
    decreases wire.len(),
{
    if wire.len() == 0 {
        None
    } else if wire[0] == 0 {
        if wire.len() == 1 {
            Some(Seq::empty())
        } else {
            None
        }
    } else if wire[0] > 63 || wire.len() < 1 + wire[0] {
        None
    } else {
        match decode_labels(wire.skip(1 + wire[0])) {
            Some(rest) => Some(seq![wire.subrange(1, 1 + wire[0])] + rest),
            None => None,
        }
    }
}

/// The name that a wire format holds: `decode_labels`, with the limit on the
/// whole length.
pub open spec fn parse_name(wire: Seq<u8>) -> Option<Seq<Seq<u8>>> {
    if wire.len() > 255 {
        None
    } else {
        decode_labels(wire)
    }
}

/// The labels held by a vector of octet vectors.
pub open spec fn label_seq(labels: Seq<Vec<u8>>) -> Seq<Seq<u8>> {
    Seq::new(labels.len(), |i: int| labels[i]@)
}

/// An absolute domain name. The root label is implied and not stored.
pub struct DomainName {
    labels: Vec<Vec<u8>>,
}

impl View for DomainName {
    type V = Seq<Seq<u8>>;

    closed spec fn view(&self) -> Seq<Seq<u8>> {
        label_seq(self.labels@)
    }
}

impl DeepView for DomainName {
    type V = Seq<Seq<u8>>;

    open spec fn deep_view(&self) -> Seq<Seq<u8>> {
        self@
    }
}

/// The lower-case form of one octet.
pub fn lower_octet(b: u8) -> (r: u8)
    ensures
        r == lower(b),
{
    if 65 <= b && b <= 90 {
        b + 32
    } else {
        b
    }
}

/// Compares two labels without regard to ASCII case.
pub fn label_matches(a: &Vec<u8>, b: &Vec<u8>) -> (r: bool)
    ensures
        r == label_eq(a@, b@),
{
    if a.len() != b.len() {
        return false;
    }
    let mut i: usize = 0;
    while i < a.len()
        invariant
            i <= a.len(),
            a.len() == b.len(),
            forall|j: int| 0 <= j < i ==> lower(#[trigger] a@[j]) == lower(b@[j]),
        decreases a.len() - i,
    {
        if lower_octet(a[i]) != lower_octet(b[i]) {
            return false;
        }
        i += 1;
    }
    true
}

/// A copy of a vector of octets.
pub fn copy_octets(v: &Vec<u8>) -> (r: Vec<u8>)
    ensures
        r@ == v@,
{
    let mut out: Vec<u8> = Vec::with_capacity(v.len());
    let mut i: usize = 0;
    while i < v.len()
        invariant
            i <= v.len(),
            out@ == v@.take(i as int),
        decreases v.len() - i,
    {
        out.push(v[i]);
        i += 1;
        assert(out@ =~= v@.take(i as int));
    }
    assert(v@.take(v.len() as int) =~= v@);
    out
}

/// Tells whether two vectors hold the same octets.
pub fn same_octets(a: &Vec<u8>, b: &Vec<u8>) -> (r: bool)
    ensures
        r == (a@ == b@),
{
    if a.len() != b.len() {
        return false;
    }
    let mut i: usize = 0;
    while i < a.len()
        invariant
            i <= a.len(),
            a.len() == b.len(),
            forall|j: int| 0 <= j < i ==> a@[j] == b@[j],
        decreases a.len() - i,
    {
        if a[i] != b[i] {
            return false;
        }
        i += 1;
    }
    assert(a@ =~= b@);
    true
}

/// Every prefix of the labels fits where the whole name fits.
pub proof fn lemma_wire_len_skip(labels: Seq<Seq<u8>>, i: int)
    requires
        0 <= i <= labels.len(),
    ensures
        wire_len(labels.skip(i)) <= wire_len(labels),
        i < labels.len() ==> wire_len(labels.skip(i)) == 1 + labels[i].len() + wire_len(
            labels.skip(i + 1),
        ),
    decreases i,
{
    if i < labels.len() {
        assert(labels.skip(i).drop_first() =~= labels.skip(i + 1));
    }
    if i > 0 {
        lemma_wire_len_skip(labels, i - 1);
        assert(labels.skip(i - 1).drop_first() =~= labels.skip(i));
    } else {
        assert(labels.skip(0) =~= labels);
    }
}

impl DomainName {
    /// What holds of every name that the library hands out: its labels
    /// make a valid name.
    #[verifier::type_invariant]
    pub open spec fn wf(&self) -> bool {
        valid_labels(self@)
    }

    /// The root name, which has no labels.
    pub fn root() -> (r: DomainName)
        ensures
            r@ == Seq::<Seq<u8>>::empty(),
            r.wf(),
    {
        let labels: Vec<Vec<u8>> = Vec::new();
        assert(label_seq(labels@) =~= Seq::<Seq<u8>>::empty());
        DomainName { labels }
    }

    /// Makes a name of the given labels, first label first. Fails when a
    /// label is empty or too long, or when the whole name is too long.
    pub fn from_labels(labels: Vec<Vec<u8>>) -> (r: Option<DomainName>)
        ensures
            r is Some <==> valid_labels(label_seq(labels@)),
            r matches Some(n) ==> n@ == label_seq(labels@) && n.wf(),
    {
        let ghost all = label_seq(labels@);
        let mut total: usize = 1;
        let mut i: usize = 0;
        proof {
            assert(all.skip(0) =~= all);
        }
        while i < labels.len()
            invariant
                i <= labels.len(),
                all == label_seq(labels@),
                1 <= total <= 255,
                total - 1 + wire_len(all.skip(i as int)) == wire_len(all),
                forall|j: int| 0 <= j < i ==> 1 <= (#[trigger] all[j]).len() <= 63,
            decreases labels.len() - i,
        {
            let n: usize = labels[i].len();
            proof {
                lemma_wire_len_skip(all, i as int);
            }
            if n == 0 || n > MAX_LABEL_LEN {
                assert(!(1 <= all[i as int].len() <= 63));
                return None;
            }
            if total + n + 1 > MAX_NAME_LEN {
                return None;
            }
            total = total + n + 1;
            i += 1;
        }
        Some(DomainName { labels })
    }

    /// The number of labels, the root label not counted.
    pub fn label_count(&self) -> (r: usize)
        ensures
            r == self@.len(),
    {
        self.labels.len()
    }

    /// A copy of the labels, first label first.
    pub fn labels(&self) -> (r: Vec<Vec<u8>>)
        ensures
            label_seq(r@) == self@,
    {
        let mut out: Vec<Vec<u8>> = Vec::with_capacity(self.labels.len());
        let mut i: usize = 0;
        while i < self.labels.len()
            invariant
                i <= self.labels.len(),
                out@.len() == i,
                forall|j: int| 0 <= j < i ==> (#[trigger] out@[j])@ == self.labels@[j]@,
            decreases self.labels.len() - i,
        {
            out.push(copy_octets(&self.labels[i]));
            i += 1;
        }
        assert(label_seq(out@) =~= label_seq(self.labels@));
        out
    }

    /// A copy of the name.
    pub fn duplicate(&self) -> (r: DomainName)
        ensures
            r@ == self@,
            r.wf(),
    {
        proof {
            use_type_invariant(self);
        }
        let labels = self.labels();
        DomainName { labels }
    }

    /// Tells whether the two names are the same name, which is so when they
    /// differ at most in ASCII case.
    pub fn eq_ignore_case(&self, other: &DomainName) -> (r: bool)
        ensures
            r == labels_eq(self@, other@),
    {
        if self.labels.len() != other.labels.len() {
            return false;
        }
        let mut i: usize = 0;
        while i < self.labels.len()
            invariant
                i <= self.labels.len(),
                self.labels.len() == other.labels.len(),
                forall|j: int| 0 <= j < i ==> label_eq(#[trigger] self@[j], other@[j]),
            decreases self.labels.len() - i,
        {
            if !label_matches(&self.labels[i], &other.labels[i]) {
                assert(!label_eq(self@[i as int], other@[i as int]));
                return false;
            }
            i += 1;
        }
        true
    }

    /// Tells whether the two names are spelled alike, octet for octet.
    pub fn same(&self, other: &DomainName) -> (r: bool)
        ensures
            r == (self@ == other@),
    {
        if self.labels.len() != other.labels.len() {
            assert(self@.len() != other@.len());
            return false;
        }
        let mut i: usize = 0;
        while i < self.labels.len()
            invariant
                i <= self.labels.len(),
                self.labels.len() == other.labels.len(),
                forall|j: int| 0 <= j < i ==> self@[j] == other@[j],
            decreases self.labels.len() - i,
        {
            if !same_octets(&self.labels[i], &other.labels[i]) {
                assert(self@[i as int] != other@[i as int]);
                return false;
            }
            i += 1;
        }
        assert(self@ =~= other@);
        true
    }

    /// Tells whether `suffix` is this name or one of its ancestors: the zone
    /// cut test.
    pub fn ends_with(&self, suffix: &DomainName) -> (r: bool)
        ensures
            r == labels_end_with(self@, suffix@),
    {
        let n: usize = self.labels.len();
        let m: usize = suffix.labels.len();
        if m > n {
            return false;
        }
        let offset: usize = n - m;
        let ghost tail = self@.skip(offset as int);
        let mut i: usize = 0;
        while i < m
            invariant
                i <= m,
                m == suffix.labels.len(),
                n == self.labels.len(),
                offset == n - m,
                tail == self@.skip(offset as int),
                forall|j: int| 0 <= j < i ==> label_eq(#[trigger] tail[j], suffix@[j]),
            decreases m - i,
        {
            if !label_matches(&self.labels[offset + i], &suffix.labels[i]) {
                assert(!label_eq(tail[i as int], suffix@[i as int]));
                return false;
            }
            i += 1;
        }
        true
    }

    /// Reads a name from its uncompressed wire format. Fails when the octets
    /// are not exactly one valid name.
    pub fn from_wire(wire: &Vec<u8>) -> (r: Option<DomainName>)
        ensures
            match r {
                Some(n) => parse_name(wire@) == Some(n@) && n.wf(),
                None => parse_name(wire@) is None,
            },
    {
        if wire.len() > MAX_NAME_LEN {
            return None;
        }
        let mut labels: Vec<Vec<u8>> = Vec::new();
        let mut pos: usize = 0;
        proof {
            assert(wire@.skip(0) =~= wire@);
            assert(label_seq(labels@) =~= Seq::<Seq<u8>>::empty());
            assert(forall|rest: Seq<Seq<u8>>| Seq::<Seq<u8>>::empty() + rest =~= rest);
        }
        loop
            invariant
                pos <= wire.len() <= 255,
                match decode_labels(wire@.skip(pos as int)) {
                    Some(rest) => decode_labels(wire@) == Some(label_seq(labels@) + rest),
                    None => decode_labels(wire@) is None,
                },
                wire_len(label_seq(labels@)) == pos + 1,
                forall|j: int|
                    0 <= j < labels@.len() ==> 1 <= (#[trigger] label_seq(labels@)[j]).len() <= 63,
            decreases wire.len() - pos,
        {
            let ghost here = wire@.skip(pos as int);
            if pos >= wire.len() {
                return None;
            }
            let n: usize = wire[pos] as usize;
            assert(here[0] == wire@[pos as int]);
            if n == 0 {
                if pos + 1 == wire.len() {
                    proof {
                        assert(label_seq(labels@) + Seq::<Seq<u8>>::empty() =~= label_seq(labels@));
                    }
                    return Some(DomainName { labels });
                } else {
                    return None;
                }
            }
            if n > MAX_LABEL_LEN || wire.len() - pos < 1 + n {
                return None;
            }
            let mut label: Vec<u8> = Vec::with_capacity(n);
            let mut k: usize = 0;
            while k < n
                invariant
                    k <= n,
                    pos + 1 + n <= wire.len(),
                    label@ == wire@.subrange(pos + 1, pos + 1 + k),
                decreases n - k,
            {
                label.push(wire[pos + 1 + k]);
                k += 1;
                assert(label@ =~= wire@.subrange(pos + 1, pos + 1 + k));
            }
            proof {
                let before = label_seq(labels@);
                assert(here.skip(1 + n) =~= wire@.skip(pos + 1 + n));
                assert(here.subrange(1, 1 + n) =~= label@);
                lemma_wire_len_push(before, label@);
                assert(label_seq(labels@.push(label)) =~= before.push(label@));
                assert forall|rest: Seq<Seq<u8>>|
                    before + (seq![label@] + rest) == #[trigger] (before.push(label@) + rest) by {
                    assert(before + (seq![label@] + rest) =~= before.push(label@) + rest);
                }
            }
            labels.push(label);
            pos = pos + 1 + n;
        }
    }

    /// The uncompressed wire format of the name.
    pub fn to_wire(&self) -> (r: Vec<u8>)
        ensures
            r@ == encode_labels(self@),
            parse_name(r@) == Some(self@),
    {
        proof {
            use_type_invariant(self);
            assert(self@.skip(0) =~= self@);
        }
        let mut out: Vec<u8> = Vec::new();
        let mut i: usize = 0;
        while i < self.labels.len()
            invariant
                i <= self.labels.len(),
                self.wf(),
                out@ + encode_labels(self@.skip(i as int)) == encode_labels(self@),
            decreases self.labels.len() - i,
        {
            let label = &self.labels[i];
            let ghost before = out@;
            let ghost rest = self@.skip(i as int);
            proof {
                assert(rest[0] == label@);
                assert(rest.drop_first() =~= self@.skip(i + 1));
                assert(1 <= self@[i as int].len() <= 63);
            }
            out.push(label.len() as u8);
            let mut k: usize = 0;
            while k < label.len()
                invariant
                    k <= label.len(),
                    label@.len() <= 63,
                    out@ == before + seq![label@.len() as u8] + label@.take(k as int),
                decreases label.len() - k,
            {
                out.push(label[k]);
                k += 1;
                assert(out@ =~= before + seq![label@.len() as u8] + label@.take(k as int));
            }
            proof {
                assert(label@.take(label@.len() as int) =~= label@);
                assert(out@ + encode_labels(self@.skip(i + 1)) =~= before + encode_labels(rest));
            }
            i += 1;
        }
        let ghost before = out@;
        out.push(0u8);
        proof {
            use_type_invariant(self);
            lemma_decode_encode(self@);
            assert(self@.skip(self@.len() as int) =~= Seq::<Seq<u8>>::empty());
            assert(out@ =~= before + seq![0u8]);
        }
        out
    }

    /// The canonical form of the name, with every label in lower case.
    pub fn canonical(&self) -> (r: DomainName)
        ensures
            r@ == canonical_labels(self@),
            r.wf(),
    {
        proof {
            use_type_invariant(self);
        }
        let mut out: Vec<Vec<u8>> = Vec::with_capacity(self.labels.len());
        let mut i: usize = 0;
        while i < self.labels.len()
            invariant
                i <= self.labels.len(),
                out@.len() == i,
                forall|j: int| 0 <= j < i ==> (#[trigger] out@[j])@ == lower_label(self.labels@[j]@),
            decreases self.labels.len() - i,
        {
            let src = &self.labels[i];
            let mut label: Vec<u8> = Vec::with_capacity(src.len());
            let mut k: usize = 0;
            while k < src.len()
                invariant
                    k <= src.len(),
                    label@.len() == k,
                    forall|j: int| 0 <= j < k ==> #[trigger] label@[j] == lower(src@[j]),
                decreases src.len() - k,
            {
                label.push(lower_octet(src[k]));
                k += 1;
            }
            assert(label@ =~= lower_label(src@));
            out.push(label);
            i += 1;
        }
        proof {
            assert(label_seq(out@) =~= canonical_labels(self@));
            lemma_canonical_valid(self@);
        }
        DomainName { labels: out }
    }
}

/// Folding the case of a name changes no length, so the canonical form of a
/// valid name is valid.
pub proof fn lemma_canonical_valid(labels: Seq<Seq<u8>>)
    requires
        valid_labels(labels),
    ensures
        valid_labels(canonical_labels(labels)),
        wire_len(canonical_labels(labels)) == wire_len(labels),
{
    lemma_canonical_wire_len(labels);
    let c = canonical_labels(labels);
    assert forall|i: int| 0 <= i < c.len() implies 1 <= (#[trigger] c[i]).len() <= 63 by {
        assert(c[i].len() == labels[i].len());
    }
}

proof fn lemma_canonical_wire_len(labels: Seq<Seq<u8>>)
    ensures
        wire_len(canonical_labels(labels)) == wire_len(labels),
    decreases labels.len(),
{
    if labels.len() > 0 {
        lemma_canonical_wire_len(labels.drop_first());
        assert(canonical_labels(labels).drop_first() =~= canonical_labels(labels.drop_first()));
    }
}

/// Appending a label lengthens the wire format by the label and its length
/// octet.
pub proof fn lemma_wire_len_push(labels: Seq<Seq<u8>>, label: Seq<u8>)
    ensures
        wire_len(labels.push(label)) == wire_len(labels) + 1 + label.len(),
    decreases labels.len(),
{
    let longer = labels.push(label);
    assert(wire_len(longer) == 1 + longer[0].len() + wire_len(longer.drop_first()));
    if labels.len() == 0 {
        assert(longer.drop_first() =~= Seq::<Seq<u8>>::empty());
        assert(wire_len(longer.drop_first()) == 1);
    } else {
        lemma_wire_len_push(labels.drop_first(), label);
        assert(longer.drop_first() =~= labels.drop_first().push(label));
    }
}

/// Reading back the wire format of a valid name gives the name, and the wire
/// format has the length that `wire_len` states.
pub proof fn lemma_decode_encode(labels: Seq<Seq<u8>>)
    requires
        forall|i: int| 0 <= i < labels.len() ==> 1 <= (#[trigger] labels[i]).len() <= 63,
    ensures
        decode_labels(encode_labels(labels)) == Some(labels),
        encode_labels(labels).len() == wire_len(labels),
    decreases labels.len(),
{
    if labels.len() == 0 {
        assert(labels =~= Seq::<Seq<u8>>::empty());
    } else {
        let rest = labels.drop_first();
        let wire = encode_labels(labels);
        lemma_decode_encode(rest);
        assert(1 <= labels[0].len() <= 63);
        assert(wire[0] == labels[0].len() as u8);
        assert(wire.skip(1 + wire[0]) =~= encode_labels(rest));
        assert(wire.subrange(1, 1 + wire[0]) =~= labels[0]);
        assert(seq![labels[0]] + rest =~= labels);
    }
}

/// Two names are the same name exactly when their canonical forms are
/// spelled alike.
pub proof fn lemma_canonical_decides(a: Seq<Seq<u8>>, b: Seq<Seq<u8>>)
    ensures
        labels_eq(a, b) <==> canonical_labels(a) == canonical_labels(b),
{
    let ca = canonical_labels(a);
    let cb = canonical_labels(b);
    if labels_eq(a, b) {
        assert forall|i: int| 0 <= i < a.len() implies ca[i] == cb[i] by {
            assert(label_eq(a[i], b[i]));
            assert(lower_label(a[i]) =~= lower_label(b[i]));
        }
        assert(ca =~= cb);
    }
    if ca == cb {
        assert(a.len() == ca.len() && b.len() == cb.len());
        assert forall|i: int| 0 <= i < a.len() implies label_eq(#[trigger] a[i], b[i]) by {
            assert(ca[i] == cb[i]);
            assert(lower_label(a[i]).len() == lower_label(b[i]).len());
            assert forall|j: int| 0 <= j < a[i].len() implies lower(#[trigger] a[i][j]) == lower(
                b[i][j],
            ) by {
                assert(lower_label(a[i])[j] == lower_label(b[i])[j]);
            }
        }
    }
}

} // verus!
