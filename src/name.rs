use vstd::prelude::*;

verus! {

/// Why a message could not be read.
#[derive(Debug, Clone, Copy, PartialEq, Eq, Structural)]
pub enum ParseError {
    /// The message ends before the item being read.
    Truncated,
    /// A length byte whose top bits are 01 or 10.
    BadLabel,
    /// A compression pointer that does not point strictly before the label
    /// run that holds it; every pointer cycle has one.
    PointerLoop,
    /// A name longer than 255 bytes on the wire.
    NameTooLong,
    /// A question class other than IN.
    UnsupportedClass,
    /// Record data that does not fill its stated length.
    BadLength,
}

/// The longest name on the wire, terminator included.
pub const MAX_NAME_WIRE: usize = 255;

/// The byte that ends every label in the dotted form.
pub const DOT: u8 = 46;

/// The offset that a two-byte compression pointer names.
pub open spec fn pointer_target(hi: u8, lo: u8) -> nat {
    ((hi - 192) * 256 + lo) as nat
}

/// The labels that start at `pos`, and where the name ends in the run that
/// starts it. `seg` is the start of the current label run: a pointer must
/// name an offset before it. `room` is the wire length still allowed for
/// labels, the terminator not counted.
pub open spec fn decode(msg: Seq<u8>, pos: nat, seg: nat, room: nat) -> Result<(Seq<Seq<u8>>, nat), ParseError>
    decreases seg, msg.len() - pos,
{
    if pos >= msg.len() {
        Err(ParseError::Truncated)
    } else if msg[pos as int] == 0 {
        Ok((seq![], pos + 1))
    } else if msg[pos as int] >= 192 {
        if pos + 1 >= msg.len() {
            Err(ParseError::Truncated)
        } else if pointer_target(msg[pos as int], msg[pos as int + 1]) < seg {
            let t = pointer_target(msg[pos as int], msg[pos as int + 1]);
            match decode(msg, t, t, room) {
                Ok((ls, _)) => Ok((ls, pos + 2)),
                Err(e) => Err(e),
            }
        } else {
            Err(ParseError::PointerLoop)
        }
    } else if msg[pos as int] >= 64 {
        Err(ParseError::BadLabel)
    } else {
        let len = msg[pos as int] as nat;
        let end = pos + 1 + len;
        if end > msg.len() {
            Err(ParseError::Truncated)
        } else if 1 + len > room {
            Err(ParseError::NameTooLong)
        } else {
            match decode(msg, end, seg, (room - 1 - len) as nat) {
                Ok((ls, e)) => Ok((seq![msg.subrange(pos as int + 1, end as int)] + ls, e)),
                Err(e) => Err(e),
            }
        }
    }
}

/// The labels, each followed by a dot.
pub open spec fn join(ls: Seq<Seq<u8>>) -> Seq<u8>
    decreases ls.len(),
{
    if ls.len() == 0 {
        seq![]
    } else {
        join(ls.drop_last()) + ls.last() + seq![DOT]
    }
}

/// The dotted form of a name: each label followed by a dot; the root is ".".
pub open spec fn dotted(ls: Seq<Seq<u8>>) -> Seq<u8> {
    if ls.len() == 0 {
        seq![DOT]
    } else {
        join(ls)
    }
}

/// The name at `pos` in its dotted form, and the offset after it.
pub open spec fn read_name_spec(msg: Seq<u8>, pos: nat) -> Result<(Seq<u8>, nat), ParseError> {
    match decode(msg, pos, pos, (MAX_NAME_WIRE - 1) as nat) {
        Ok((ls, e)) => Ok((dotted(ls), e)),
        Err(e) => Err(e),
    }
}

/// The views of a sequence of byte vectors.
pub open spec fn views(v: Seq<Vec<u8>>) -> Seq<Seq<u8>> {
    v.map_values(|l: Vec<u8>| l@)
}

/// A copy of `msg[from..to]`.
pub fn copy_range(msg: &[u8], from: usize, to: usize) -> (r: Vec<u8>)
    requires
        from <= to <= msg@.len(),
    ensures
        r@ == msg@.subrange(from as int, to as int),
{
    let mut out: Vec<u8> = Vec::new();
    let mut i = from;
    while i < to
        invariant
            from <= i <= to <= msg@.len(),
            out@ == msg@.subrange(from as int, i as int),
        decreases to - i,
    {
        out.push(msg[i]);
        assert(out@ =~= msg@.subrange(from as int, i + 1));
        i = i + 1;
    }
    out
}

fn decode_at(msg: &[u8], pos: usize, seg: usize, room: usize) -> (r: Result<(Vec<Vec<u8>>, usize), ParseError>)
    requires
        room < MAX_NAME_WIRE,
    ensures
        match r {
            Ok((ls, e)) => decode(msg@, pos as nat, seg as nat, room as nat) == Ok::<(Seq<Seq<u8>>, nat), ParseError>((views(ls@), e as nat)),
            Err(e) => decode(msg@, pos as nat, seg as nat, room as nat) == Err::<(Seq<Seq<u8>>, nat), ParseError>(e),
        },
    decreases seg, msg@.len() - pos,
{
    if pos >= msg.len() {
        return Err(ParseError::Truncated);
    }
    let b = msg[pos];
    if b == 0 {
        let ls: Vec<Vec<u8>> = Vec::new();
        assert(views(ls@) =~= seq![]);
        return Ok((ls, pos + 1));
    }
    if b >= 192 {
        if pos + 1 >= msg.len() {
            return Err(ParseError::Truncated);
        }
        let t = (b as usize - 192) * 256 + msg[pos + 1] as usize;
        if t < seg {
            return match decode_at(msg, t, t, room) {
                Ok((ls, _)) => Ok((ls, pos + 2)),
                Err(e) => Err(e),
            };
        } else {
            return Err(ParseError::PointerLoop);
        }
    }
    if b >= 64 {
        return Err(ParseError::BadLabel);
    }
    let len = b as usize;
    if len > msg.len() - pos - 1 {
        return Err(ParseError::Truncated);
    }
    let end = pos + 1 + len;
    if 1 + len > room {
        return Err(ParseError::NameTooLong);
    }
    match decode_at(msg, end, seg, room - 1 - len) {
        Ok((rest, e)) => {
            let label = copy_range(msg, pos + 1, end);
            let mut ls: Vec<Vec<u8>> = Vec::new();
            ls.push(label);
            let mut rest = rest;
            let ghost rv = views(rest@);
            ls.append(&mut rest);
            assert(views(ls@) =~= seq![msg@.subrange(pos as int + 1, end as int)] + rv);
            Ok((ls, e))
        },
        Err(e) => Err(e),
    }
}

/// Joins labels into the dotted form.
pub fn to_dotted(ls: &Vec<Vec<u8>>) -> (r: Vec<u8>)
    ensures
        r@ == dotted(views(ls@)),
{
    let mut out: Vec<u8> = Vec::new();
    if ls.len() == 0 {
        out.push(DOT);
        assert(out@ =~= seq![DOT]);
        return out;
    }
    let mut i: usize = 0;
    while i < ls.len()
        invariant
            i <= ls@.len(),
            out@ == join(views(ls@).take(i as int)),
        decreases ls@.len() - i,
    {
        let l = &ls[i];
        let mut j: usize = 0;
        let ghost start = out@;
        while j < l.len()
            invariant
                j <= l@.len(),
                out@ == start + l@.take(j as int),
            decreases l@.len() - j,
        {
            out.push(l[j]);
            assert(out@ =~= start + l@.take(j + 1));
            j = j + 1;
        }
        out.push(DOT);
        assert(views(ls@).take(i + 1).drop_last() =~= views(ls@).take(i as int));
        assert(l@.take(j as int) =~= l@);
        assert(out@ =~= join(views(ls@).take(i + 1)));
        i = i + 1;
    }
    assert(views(ls@).take(i as int) =~= views(ls@));
    out
}

/// Reads the name at `pos`: its dotted form and the offset after it in the
/// label run that starts it.
pub fn read_name(msg: &[u8], pos: usize) -> (r: Result<(Vec<u8>, usize), ParseError>)
    ensures
        match r {
            Ok((n, e)) => read_name_spec(msg@, pos as nat) == Ok::<(Seq<u8>, nat), ParseError>((n@, e as nat)),
            Err(e) => read_name_spec(msg@, pos as nat) == Err::<(Seq<u8>, nat), ParseError>(e),
        },
{
    match decode_at(msg, pos, pos, MAX_NAME_WIRE - 1) {
        Ok((ls, e)) => Ok((to_dotted(&ls), e)),
        Err(e) => Err(e),
    }
}

/// The labels as length-prefixed octets, without a terminator.
pub open spec fn encode_labels(ls: Seq<Seq<u8>>) -> Seq<u8>
    decreases ls.len(),
{
    if ls.len() == 0 {
        seq![]
    } else {
        seq![ls[0].len() as u8] + ls[0] + encode_labels(ls.drop_first())
    }
}

/// Every label is 1 to 63 octets long.
pub open spec fn labels_ok(ls: Seq<Seq<u8>>) -> bool {
    forall|i: int| 0 <= i < ls.len() ==> 1 <= #[trigger] ls[i].len() <= 63
}

/// The labels are valid and, with the terminator, fit in 255 bytes.
pub open spec fn name_ok(ls: Seq<Seq<u8>>) -> bool {
    labels_ok(ls) && encode_labels(ls).len() + 1 <= MAX_NAME_WIRE
}

/// Encoding two runs of labels one after the other.
pub proof fn lemma_encode_append(a: Seq<Seq<u8>>, b: Seq<Seq<u8>>)
    ensures
        encode_labels(a + b) == encode_labels(a) + encode_labels(b),
    decreases a.len(),
{
    if a.len() == 0 {
        assert(a + b =~= b);
    } else {
        assert((a + b).drop_first() =~= a.drop_first() + b);
        lemma_encode_append(a.drop_first(), b);
        assert(encode_labels(a + b) =~= encode_labels(a) + encode_labels(b));
    }
}

/// Labels encoded in place decode back, followed by what decodes after them.
pub proof fn lemma_decode_encoded(buf: Seq<u8>, p: nat, ls: Seq<Seq<u8>>, seg: nat, room: nat,
    rest: Seq<Seq<u8>>, end: nat)
    requires
        labels_ok(ls),
        p + encode_labels(ls).len() <= buf.len(),
        buf.subrange(p as int, p as int + encode_labels(ls).len()) == encode_labels(ls),
        room >= encode_labels(ls).len(),
        decode(buf, p + encode_labels(ls).len(), seg, (room - encode_labels(ls).len()) as nat) == Ok::<(Seq<Seq<u8>>, nat), ParseError>((rest, end)),
    ensures
        decode(buf, p, seg, room) == Ok::<(Seq<Seq<u8>>, nat), ParseError>((ls + rest, end)),
    decreases ls.len(),
{
    if ls.len() == 0 {
        assert(ls + rest =~= rest);
    } else {
        let l = ls[0];
        let tail = ls.drop_first();
        assert(1 <= l.len() <= 63);
        let enc = encode_labels(ls);
        assert(enc =~= seq![l.len() as u8] + l + encode_labels(tail));
        assert(buf[p as int] == enc[0]);
        let q = p + 1 + l.len();
        assert(buf.subrange(p as int + 1, q as int) =~= l) by {
            assert forall|i: int| 0 <= i < l.len() implies buf.subrange(p as int + 1, q as int)[i] == l[i] by {
                assert(buf[p as int + 1 + i] == enc[1 + i]);
            }
        }
        assert(buf.subrange(q as int, q as int + encode_labels(tail).len()) =~= encode_labels(tail)) by {
            assert forall|i: int| 0 <= i < encode_labels(tail).len()
                implies buf.subrange(q as int, q as int + encode_labels(tail).len())[i] == encode_labels(tail)[i] by {
                assert(buf[q as int + i] == enc[1 + l.len() + i]);
            }
        }
        assert forall|i: int| 0 <= i < tail.len() implies 1 <= #[trigger] tail[i].len() <= 63 by {
            assert(tail[i] == ls[i + 1]);
        }
        lemma_decode_encoded(buf, q, tail, seg, (room - 1 - l.len()) as nat, rest, end);
        assert(seq![l] + (tail + rest) =~= ls + rest);
    }
}

/// A name that decodes in a buffer decodes the same once bytes are appended.
pub proof fn lemma_decode_prefix(buf: Seq<u8>, ext: Seq<u8>, pos: nat, seg: nat, room: nat)
    requires
        decode(buf, pos, seg, room) is Ok,
    ensures
        decode(buf + ext, pos, seg, room) == decode(buf, pos, seg, room),
        decode(buf, pos, seg, room)->Ok_0.1 <= buf.len(),
    decreases seg, buf.len() - pos,
{
    let b2 = buf + ext;
    assert(pos < buf.len());
    assert(b2[pos as int] == buf[pos as int]);
    if buf[pos as int] == 0 {
    } else if buf[pos as int] >= 192 {
        assert(b2[pos as int + 1] == buf[pos as int + 1]);
        let t = pointer_target(buf[pos as int], buf[pos as int + 1]);
        lemma_decode_prefix(buf, ext, t, t, room);
    } else if buf[pos as int] >= 64 {
    } else {
        let len = buf[pos as int] as nat;
        let end = pos + 1 + len;
        assert(b2.subrange(pos as int + 1, end as int) =~= buf.subrange(pos as int + 1, end as int));
        lemma_decode_prefix(buf, ext, end, seg, (room - 1 - len) as nat);
    }
}

/// A decoded name fits the room it was given, and any room it fits decodes
/// it the same way.
pub proof fn lemma_decode_room(buf: Seq<u8>, pos: nat, seg: nat, room: nat, room2: nat)
    requires
        decode(buf, pos, seg, room) is Ok,
        room2 >= encode_labels(decode(buf, pos, seg, room)->Ok_0.0).len(),
    ensures
        encode_labels(decode(buf, pos, seg, room)->Ok_0.0).len() <= room,
        labels_ok(decode(buf, pos, seg, room)->Ok_0.0),
        decode(buf, pos, seg, room2) == decode(buf, pos, seg, room),
    decreases seg, buf.len() - pos,
{
    let ls = decode(buf, pos, seg, room)->Ok_0.0;
    if buf[pos as int] == 0 {
        assert(encode_labels(ls) =~= seq![]);
    } else if buf[pos as int] >= 192 {
        let t = pointer_target(buf[pos as int], buf[pos as int + 1]);
        lemma_decode_room(buf, t, t, room, room2);
    } else {
        let len = buf[pos as int] as nat;
        let end = pos + 1 + len;
        let rest = decode(buf, end, seg, (room - 1 - len) as nat)->Ok_0.0;
        let l = buf.subrange(pos as int + 1, end as int);
        assert(ls == seq![l] + rest);
        assert(ls.drop_first() =~= rest);
        assert(encode_labels(ls) == seq![l.len() as u8] + l + encode_labels(rest));
        lemma_decode_room(buf, end, seg, (room - 1 - len) as nat, (room2 - 1 - len) as nat);
        assert forall|i: int| 0 <= i < ls.len() implies 1 <= #[trigger] ls[i].len() <= 63 by {
            if i > 0 {
                assert(ls[i] == rest[i - 1]);
            }
        }
    }
}

/// The labels of a dotted name: the runs between dots, empty runs dropped.
/// `cur` is the label read so far.
pub open spec fn split_acc(s: Seq<u8>, cur: Seq<u8>) -> Seq<Seq<u8>>
    decreases s.len(),
{
    if s.len() == 0 {
        if cur.len() > 0 { seq![cur] } else { seq![] }
    } else if s[0] == DOT {
        if cur.len() > 0 {
            seq![cur] + split_acc(s.drop_first(), seq![])
        } else {
            split_acc(s.drop_first(), seq![])
        }
    } else {
        split_acc(s.drop_first(), cur.push(s[0]))
    }
}

/// The labels of a dotted name.
pub open spec fn split(s: Seq<u8>) -> Seq<Seq<u8>> {
    split_acc(s, seq![])
}

/// Splits a dotted name into its labels, dropping empty ones.
pub fn split_name(name: &[u8]) -> (r: Vec<Vec<u8>>)
    ensures
        views(r@) == split(name@),
{
    let mut out: Vec<Vec<u8>> = Vec::new();
    let mut cur: Vec<u8> = Vec::new();
    let mut i: usize = 0;
    assert(name@.skip(0) =~= name@);
    assert(views(out@) + split_acc(name@, cur@) =~= split(name@));
    while i < name.len()
        invariant
            i <= name@.len(),
            views(out@) + split_acc(name@.skip(i as int), cur@) == split(name@),
        decreases name@.len() - i,
    {
        let b = name[i];
        let ghost rest = name@.skip(i as int);
        assert(rest.drop_first() =~= name@.skip(i + 1));
        assert(rest[0] == b);
        if b == DOT {
            if cur.len() > 0 {
                let ghost cv = cur@;
                let ghost ov = views(out@);
                out.push(cur);
                cur = Vec::new();
                assert(views(out@) =~= ov.push(cv));
                assert(ov + (seq![cv] + split_acc(name@.skip(i + 1), seq![]))
                    =~= ov.push(cv) + split_acc(name@.skip(i + 1), seq![]));
                assert(cur@ =~= seq![]);
            } else {
                assert(cur@ =~= seq![]);
            }
        } else {
            cur.push(b);
        }
        i = i + 1;
    }
    assert(name@.skip(i as int) =~= seq![]);
    if cur.len() > 0 {
        let ghost cv = cur@;
        let ghost ov = views(out@);
        out.push(cur);
        assert(views(out@) =~= ov + seq![cv]);
    } else {
        assert(views(out@) =~= views(out@) + seq![]);
    }
    out
}

/// Why a name could not be written.
#[derive(Debug, Clone, Copy, PartialEq, Eq, Structural)]
pub enum NameError {
    /// A label longer than 63 octets.
    LabelTooLong,
    /// A name longer than 255 bytes on the wire.
    NameTooLong,
}

/// What writing a name with the given labels fails with, if anything.
pub open spec fn name_error(ls: Seq<Seq<u8>>) -> Option<NameError> {
    if !labels_ok(ls) {
        Some(NameError::LabelTooLong)
    } else if encode_labels(ls).len() + 1 > MAX_NAME_WIRE {
        Some(NameError::NameTooLong)
    } else {
        None
    }
}

/// A suffix of a name written earlier and the offset of its first label.
pub struct DictEntry {
    pub labels: Vec<Vec<u8>>,
    pub offset: u16,
}

/// The labels of each dictionary entry.
pub open spec fn dict_labels(d: Seq<DictEntry>) -> Seq<Seq<Seq<u8>>> {
    d.map_values(|e: DictEntry| views(e.labels@))
}

/// Whether the labels from `j` on were written before.
pub open spec fn matched(dl: Seq<Seq<Seq<u8>>>, ls: Seq<Seq<u8>>, j: int) -> bool {
    exists|i: int| 0 <= i < dl.len() && dl[i] == ls.skip(j)
}

/// The first index from `j` on where the rest of the labels was written
/// before, that is the longest such suffix; the label count where none was.
pub open spec fn first_match(dl: Seq<Seq<Seq<u8>>>, ls: Seq<Seq<u8>>, j: int) -> int
    decreases ls.len() - j,
{
    if j >= ls.len() {
        ls.len() as int
    } else if matched(dl, ls, j) {
        j
    } else {
        first_match(dl, ls, j + 1)
    }
}

/// The bytes that writing `ls` adds: the labels before the match, then a
/// pointer or a terminator.
pub open spec fn written_len(dl: Seq<Seq<Seq<u8>>>, ls: Seq<Seq<u8>>) -> int {
    let k = first_match(dl, ls, 0);
    encode_labels(ls.take(k)).len() + if k < ls.len() { 2int } else { 1int }
}

fn labels_eq_from(a: &Vec<Vec<u8>>, ls: &Vec<Vec<u8>>, k: usize) -> (r: bool)
    requires
        k <= ls@.len(),
    ensures
        r == (views(a@) == views(ls@).skip(k as int)),
{
    if a.len() != ls.len() - k {
        assert(views(a@).len() != views(ls@).skip(k as int).len());
        return false;
    }
    let n = ls.len();
    let mut i: usize = 0;
    while i < a.len()
        invariant
            n == ls@.len(),
            a@.len() + k == ls@.len(),
            k <= ls@.len(),
            i <= a@.len(),
            forall|j: int| 0 <= j < i ==> a@[j]@ == ls@[k + j]@,
        decreases a@.len() - i,
    {
        assert(k + i < ls@.len());
        if !crate::cache::bytes_eq(a[i].as_slice(), ls[k + i].as_slice()) {
            assert(views(a@)[i as int] != views(ls@).skip(k as int)[i as int]);
            return false;
        }
        i = i + 1;
    }
    assert(views(a@) =~= views(ls@).skip(k as int));
    true
}

fn copy_labels_from(ls: &Vec<Vec<u8>>, k: usize) -> (r: Vec<Vec<u8>>)
    requires
        k <= ls@.len(),
    ensures
        views(r@) == views(ls@).skip(k as int),
{
    let mut out: Vec<Vec<u8>> = Vec::new();
    let mut i = k;
    while i < ls.len()
        invariant
            k <= i <= ls@.len(),
            views(out@) == views(ls@).subrange(k as int, i as int),
        decreases ls@.len() - i,
    {
        let l = copy_range(ls[i].as_slice(), 0, ls[i].len());
        assert(ls[i as int]@.subrange(0, ls[i as int]@.len() as int) =~= ls[i as int]@);
        let ghost before = views(out@);
        assert(l@ == views(ls@)[i as int]);
        out.push(l);
        assert(views(out@) =~= before.push(l@));
        assert(views(out@) =~= views(ls@).subrange(k as int, i + 1));
        i = i + 1;
    }
    assert(views(ls@).subrange(k as int, i as int) =~= views(ls@).skip(k as int));
    out
}

/// The largest offset that a compression pointer can name, plus one.
pub const POINTER_LIMIT: usize = 16384;

/// Writes names with compression against the names written before in the
/// same message.
pub struct NameWriter {
    dict: Vec<DictEntry>,
}

/// The suffixes that writing `ls` records, from label `i` on: those before
/// the match `k` whose offset a pointer can name.
pub open spec fn new_suffixes(ls: Seq<Seq<u8>>, k: int, base: int, i: int) -> Seq<Seq<Seq<u8>>>
    decreases k - i,
{
    if i >= k {
        seq![]
    } else if base + encode_labels(ls.take(i)).len() < POINTER_LIMIT {
        seq![ls.skip(i)] + new_suffixes(ls, k, base, i + 1)
    } else {
        new_suffixes(ls, k, base, i + 1)
    }
}

/// The dictionary after writing `ls` at offset `base`.
pub open spec fn after_write(dl: Seq<Seq<Seq<u8>>>, ls: Seq<Seq<u8>>, base: int) -> Seq<Seq<Seq<u8>>> {
    dl + new_suffixes(ls, first_match(dl, ls, 0), base, 0)
}

/// The offsets that writing `ls` records, in the order of `new_suffixes`.
pub open spec fn new_offsets(ls: Seq<Seq<u8>>, k: int, base: int, i: int) -> Seq<u16>
    decreases k - i,
{
    if i >= k {
        seq![]
    } else if base + encode_labels(ls.take(i)).len() < POINTER_LIMIT {
        seq![(base + encode_labels(ls.take(i)).len()) as u16] + new_offsets(ls, k, base, i + 1)
    } else {
        new_offsets(ls, k, base, i + 1)
    }
}

/// The first entry from `from` on whose labels are `t`; the entry count
/// where none is.
pub open spec fn first_index(dl: Seq<Seq<Seq<u8>>>, t: Seq<Seq<u8>>, from: int) -> int
    decreases dl.len() - from,
{
    if from >= dl.len() {
        dl.len() as int
    } else if dl[from] == t {
        from
    } else {
        first_index(dl, t, from + 1)
    }
}

/// The end of a written name: a pointer to the offset of the first entry
/// that holds the longest written suffix, or the terminator.
pub open spec fn name_tail(dl: Seq<Seq<Seq<u8>>>, offs: Seq<u16>, ls: Seq<Seq<u8>>) -> Seq<u8> {
    let k = first_match(dl, ls, 0);
    if k < ls.len() {
        let o = offs[first_index(dl, ls.skip(k), 0)];
        seq![(192 + o / 256) as u8, (o % 256) as u8]
    } else {
        seq![0u8]
    }
}

proof fn lemma_first_index(dl: Seq<Seq<Seq<u8>>>, t: Seq<Seq<u8>>, from: int, i: int)
    requires
        0 <= from <= i < dl.len(),
        dl[i] == t,
        forall|x: int| 0 <= x < i ==> dl[x] != t,
    ensures
        first_index(dl, t, from) == i,
    decreases i - from,
{
    if from < i {
        lemma_first_index(dl, t, from + 1, i);
    }
}

/// Encoding one more label.
proof fn lemma_encode_push(ls: Seq<Seq<u8>>, i: int)
    requires
        0 <= i < ls.len(),
    ensures
        encode_labels(ls.take(i + 1)) == encode_labels(ls.take(i)) + seq![ls[i].len() as u8] + ls[i],
{
    reveal_with_fuel(encode_labels, 2);
    lemma_encode_append(ls.take(i), seq![ls[i]]);
    assert(ls.take(i + 1) =~= ls.take(i) + seq![ls[i]]);
    assert(seq![ls[i]].drop_first() =~= Seq::<Seq<u8>>::empty());
    assert(encode_labels(seq![ls[i]]) =~= seq![ls[i].len() as u8] + ls[i]);
}

/// The labels written from `base` up to the match, read from label `i`,
/// give the labels from `i` on.
proof fn lemma_run(buf: Seq<u8>, base: nat, ls: Seq<Seq<u8>>, k: nat, i: nat, seg: nat, room: nat, end: nat)
    requires
        labels_ok(ls),
        i <= k <= ls.len(),
        base + encode_labels(ls.take(k as int)).len() <= buf.len(),
        buf.subrange(base as int, base as int + encode_labels(ls.take(k as int)).len()) == encode_labels(ls.take(k as int)),
        room >= encode_labels(ls.subrange(i as int, k as int)).len(),
        decode(buf, base + encode_labels(ls.take(k as int)).len(), seg,
            (room - encode_labels(ls.subrange(i as int, k as int)).len()) as nat)
            == Ok::<(Seq<Seq<u8>>, nat), ParseError>((ls.skip(k as int), end)),
    ensures
        decode(buf, base + encode_labels(ls.take(i as int)).len(), seg, room)
            == Ok::<(Seq<Seq<u8>>, nat), ParseError>((ls.skip(i as int), end)),
{
    let a = ls.take(i as int);
    let b = ls.subrange(i as int, k as int);
    lemma_encode_append(a, b);
    assert(ls.take(k as int) =~= a + b);
    let p = base + encode_labels(a).len();
    assert(buf.subrange(p as int, p as int + encode_labels(b).len()) =~= encode_labels(b)) by {
        assert forall|j: int| 0 <= j < encode_labels(b).len()
            implies buf.subrange(p as int, p as int + encode_labels(b).len())[j] == encode_labels(b)[j] by {
            assert(buf.subrange(base as int, base as int + encode_labels(ls.take(k as int)).len())[encode_labels(a).len() + j]
                == encode_labels(ls.take(k as int))[encode_labels(a).len() + j]);
        }
    }
    assert forall|j: int| 0 <= j < b.len() implies 1 <= #[trigger] b[j].len() <= 63 by {
        assert(b[j] == ls[i + j]);
    }
    lemma_decode_encoded(buf, p, b, seg, room, ls.skip(k as int), end);
    assert(b + ls.skip(k as int) =~= ls.skip(i as int));
}

impl NameWriter {
    /// The labels of each suffix written so far.
    pub closed spec fn suffixes(&self) -> Seq<Seq<Seq<u8>>> {
        dict_labels(self.dict@)
    }

    /// The offset of each suffix written so far.
    pub closed spec fn offsets(&self) -> Seq<u16> {
        self.dict@.map_values(|e: DictEntry| e.offset)
    }

    /// Every suffix in the dictionary decodes, at its offset in `buf`, to
    /// its labels, and its offset can be named by a pointer.
    pub closed spec fn valid_for(&self, buf: Seq<u8>) -> bool {
        forall|i: int| 0 <= i < self.dict@.len() ==> {
            let e = #[trigger] self.dict@[i];
            &&& (e.offset as int) < buf.len()
            &&& (e.offset as int) < POINTER_LIMIT
            &&& decode(buf, e.offset as nat, e.offset as nat, (MAX_NAME_WIRE - 1) as nat) is Ok
            &&& decode(buf, e.offset as nat, e.offset as nat, (MAX_NAME_WIRE - 1) as nat)->Ok_0.0 == views(e.labels@)
        }
    }

    /// A writer that has written nothing.
    pub fn new() -> (r: NameWriter)
        ensures
            r.suffixes() == Seq::<Seq<Seq<u8>>>::empty(),
            forall|buf: Seq<u8>| r.valid_for(buf),
    {
        let r = NameWriter { dict: Vec::new() };
        assert(r.suffixes() =~= Seq::<Seq<Seq<u8>>>::empty());
        r
    }

    /// The first label from which the rest was written before, and the
    /// dictionary entry that holds it.
    fn search(&self, ls: &Vec<Vec<u8>>) -> (r: (usize, Option<usize>))
        ensures
            r.0 == first_match(self.suffixes(), views(ls@), 0),
            r.0 <= ls@.len(),
            r.1 is None <==> r.0 == ls@.len(),
            r.1 matches Some(i) ==> i < self.dict@.len() && self.suffixes()[i as int] == views(ls@).skip(r.0 as int)
                && i == first_index(self.suffixes(), views(ls@).skip(r.0 as int), 0),
    {
        let ghost dl = self.suffixes();
        let ghost lv = views(ls@);
        let mut j: usize = 0;
        while j < ls.len()
            invariant
                j <= ls@.len(),
                dl == self.suffixes(),
                lv == views(ls@),
                first_match(dl, lv, 0) == first_match(dl, lv, j as int),
            decreases ls@.len() - j,
        {
            let mut i: usize = 0;
            while i < self.dict.len()
                invariant
                    i <= self.dict@.len(),
                    j < ls@.len(),
                    dl == self.suffixes(),
                    first_match(dl, lv, 0) == first_match(dl, lv, j as int),
                    lv == views(ls@),
                    forall|x: int| 0 <= x < i ==> dl[x] != lv.skip(j as int),
                decreases self.dict@.len() - i,
            {
                if labels_eq_from(&self.dict[i].labels, ls, j) {
                    assert(dl[i as int] == lv.skip(j as int));
                    assert(matched(dl, lv, j as int));
                    proof {
                        lemma_first_index(dl, lv.skip(j as int), 0, i as int);
                    }
                    return (j, Some(i));
                }
                i = i + 1;
            }
            assert(!matched(dl, lv, j as int));
            j = j + 1;
        }
        (j, None)
    }

    /// The number of bytes that writing `name` now would add.
    pub fn size_of(&self, name: &[u8]) -> (r: usize)
        requires
            name_error(split(name@)) is None,
        ensures
            r == written_len(self.suffixes(), split(name@)),
    {
        let ls = split_name(name);
        let (k, found) = self.search(&ls);
        let ghost lv = views(ls@);
        let mut size: usize = 0;
        let mut i: usize = 0;
        while i < k
            invariant
                i <= k <= ls@.len(),
                lv == views(ls@),
                lv == split(name@),
                name_error(lv) is None,
                size == encode_labels(lv.take(i as int)).len(),
                size <= encode_labels(lv).len(),
            decreases k - i,
        {
            proof {
                lemma_encode_push(lv, i as int);
                lemma_encode_append(lv.take(i + 1), lv.skip(i + 1));
                assert(lv =~= lv.take(i + 1) + lv.skip(i + 1));
            }
            size = size + 1 + ls[i].len();
            i = i + 1;
        }
        assert(encode_labels(lv).len() + 1 <= MAX_NAME_WIRE);
        match found {
            Some(_) => size + 2,
            None => size + 1,
        }
    }

    /// Appends `name` to `out`, compressed against the names written before,
    /// and records its new suffixes. The bytes added decode, at the old end
    /// of `out`, to the labels of `name`.
    pub fn write(&mut self, out: &mut Vec<u8>, name: &[u8]) -> (r: Result<(), NameError>)
        requires
            old(self).valid_for(old(out)@),
            old(out)@.len() + MAX_NAME_WIRE + 2 <= usize::MAX,
        ensures
            r is Err <==> name_error(split(name@)) is Some,
            r matches Err(e) ==> name_error(split(name@)) == Some(e) && *final(out) == *old(out)
                && final(self).suffixes() == old(self).suffixes(),
            final(self).valid_for(final(out)@),
            final(out)@.subrange(0, old(out)@.len() as int) == old(out)@,
            r is Ok ==> final(out)@.len() == old(out)@.len() + written_len(old(self).suffixes(), split(name@)),
            r is Ok ==> final(self).suffixes() == after_write(old(self).suffixes(), split(name@), old(out)@.len() as int),
            r is Ok ==> final(self).offsets() == old(self).offsets() + new_offsets(split(name@),
                first_match(old(self).suffixes(), split(name@), 0), old(out)@.len() as int, 0),
            r is Ok ==> final(out)@ == old(out)@ + encode_labels(split(name@).take(first_match(old(self).suffixes(), split(name@), 0)))
                + name_tail(old(self).suffixes(), old(self).offsets(), split(name@)),
            r is Ok ==> decode(final(out)@, old(out)@.len(), old(out)@.len(), (MAX_NAME_WIRE - 1) as nat)
                == Ok::<(Seq<Seq<u8>>, nat), ParseError>((split(name@), final(out)@.len())),
            r is Ok ==> read_name_spec(final(out)@, old(out)@.len())
                == Ok::<(Seq<u8>, nat), ParseError>((dotted(split(name@)), final(out)@.len())),
    {
        let ls = split_name(name);
        let ghost lv = views(ls@);
        // check each label, then the total length
        let mut i: usize = 0;
        while i < ls.len()
            invariant
                i <= ls@.len(),
                lv == views(ls@),
                forall|x: int| 0 <= x < i ==> 1 <= #[trigger] lv[x].len() <= 63,
                *out == *old(out),
                *self == *old(self),
                self.valid_for(out@),
                lv == split(name@),
            decreases ls@.len() - i,
        {
            let n = ls[i].len();
            if n == 0 || n > 63 {
                proof {
                    assert(lv[i as int] == ls@[i as int]@);
                    assert(!(1 <= lv[i as int].len() <= 63));
                    assert(!labels_ok(lv));
                }
                return Err(NameError::LabelTooLong);
            }
            proof {
                assert(lv[i as int] == ls@[i as int]@);
            }
            i = i + 1;
        }
        assert(labels_ok(lv));
        let mut total: usize = 0;
        let mut i: usize = 0;
        while i < ls.len()
            invariant
                i <= ls@.len(),
                lv == views(ls@),
                labels_ok(lv),
                total == encode_labels(lv.take(i as int)).len(),
                total < MAX_NAME_WIRE,
                *out == *old(out),
                *self == *old(self),
                self.valid_for(out@),
                lv == split(name@),
            decreases ls@.len() - i,
        {
            proof {
                lemma_encode_push(lv, i as int);
                assert(lv[i as int] == ls@[i as int]@);
            }
            let n = ls[i].len();
            if total + 1 + n + 1 > MAX_NAME_WIRE {
                proof {
                    lemma_encode_append(lv.take(i + 1), lv.skip(i + 1));
                    assert(lv =~= lv.take(i + 1) + lv.skip(i + 1));
                }
                return Err(NameError::NameTooLong);
            }
            total = total + 1 + n;
            i = i + 1;
        }
        proof {
            assert(lv.take(i as int) =~= lv);
        }
        let (k, found) = self.search(&ls);
        let ghost old_buf = out@;
        let base = out.len();
        // the labels before the match, each at a recorded position
        let mut positions: Vec<usize> = Vec::new();
        let mut j: usize = 0;
        while j < k
            invariant
                j <= k <= ls@.len(),
                lv == views(ls@),
                name_error(lv) is None,
                base == old_buf.len(),
                out@ == old_buf + encode_labels(lv.take(j as int)),
                positions@.len() == j,
                forall|x: int| 0 <= x < j ==> positions@[x] == base + encode_labels(lv.take(x)).len(),
                encode_labels(lv.take(j as int)).len() <= encode_labels(lv).len(),
                base + MAX_NAME_WIRE + 2 <= usize::MAX,
            decreases k - j,
        {
            proof {
                lemma_encode_push(lv, j as int);
                lemma_encode_append(lv.take(j + 1), lv.skip(j + 1));
                assert(lv =~= lv.take(j + 1) + lv.skip(j + 1));
            }
            positions.push(out.len());
            let l = &ls[j];
            out.push(l.len() as u8);
            let mut x: usize = 0;
            let ghost mid = out@;
            while x < l.len()
                invariant
                    x <= l@.len(),
                    out@ == mid + l@.take(x as int),
                decreases l@.len() - x,
            {
                out.push(l[x]);
                assert(out@ =~= mid + l@.take(x + 1));
                x = x + 1;
            }
            assert(l@.take(x as int) =~= l@);
            assert(out@ =~= old_buf + encode_labels(lv.take(j + 1)));
            j = j + 1;
        }
        let q = out.len();
        let ghost before_tail = out@;
        match found {
            Some(e) => {
                let off = self.dict[e].offset;
                assert(self.offsets()[e as int] == off);
                out.push((192 + off / 256) as u8);
                out.push((off % 256) as u8);
            },
            None => {
                out.push(0u8);
            },
        }
        let ghost nb = out@;
        proof {
            assert(nb =~= before_tail + name_tail(old(self).suffixes(), old(self).offsets(), lv));
            assert(nb.subrange(0, old_buf.len() as int) =~= old_buf);
            let ext = nb.subrange(old_buf.len() as int, nb.len() as int);
            assert(old_buf + ext =~= nb);
            // earlier suffixes still decode
            assert forall|x: int| 0 <= x < self.dict@.len() implies {
                let en = #[trigger] self.dict@[x];
                &&& (en.offset as int) < nb.len()
                &&& (en.offset as int) < POINTER_LIMIT
                &&& decode(nb, en.offset as nat, en.offset as nat, (MAX_NAME_WIRE - 1) as nat) is Ok
                &&& decode(nb, en.offset as nat, en.offset as nat, (MAX_NAME_WIRE - 1) as nat)->Ok_0.0 == views(en.labels@)
            } by {
                let en = self.dict@[x];
                lemma_decode_prefix(old_buf, ext, en.offset as nat, en.offset as nat, (MAX_NAME_WIRE - 1) as nat);
            }
            lemma_encode_append(lv.take(k as int), lv.skip(k as int));
            assert(lv =~= lv.take(k as int) + lv.skip(k as int));
            assert(nb.subrange(base as int, base as int + encode_labels(lv.take(k as int)).len()) =~= encode_labels(lv.take(k as int)));
        }
        // the tail decodes to the matched suffix, for any label run that starts after it
        let ghost off_g: int = match found {
            Some(e) => self.dict@[e as int].offset as int,
            None => -1,
        };
        proof {
            assert forall|s: nat, room: nat| off_g < s && room >= encode_labels(lv.skip(k as int)).len()
                implies #[trigger] decode(nb, q as nat, s, room) == Ok::<(Seq<Seq<u8>>, nat), ParseError>((lv.skip(k as int), nb.len())) by {
                match found {
                    Some(e) => {
                        let off = self.dict@[e as int].offset as nat;
                        let ext = nb.subrange(old_buf.len() as int, nb.len() as int);
                        lemma_decode_prefix(old_buf, ext, off, off, (MAX_NAME_WIRE - 1) as nat);
                        assert(pointer_target(nb[q as int], nb[q as int + 1]) == off);
                        lemma_decode_room(nb, off, off, (MAX_NAME_WIRE - 1) as nat, room);
                    },
                    None => {
                        assert(lv.skip(k as int) =~= seq![]);
                    },
                }
            }
            lemma_encode_append(lv.take(k as int), lv.skip(k as int));
            assert(lv.subrange(0, k as int) =~= lv.take(k as int));
            lemma_run(nb, base as nat, lv, k as nat, 0, base as nat, (MAX_NAME_WIRE - 1) as nat, nb.len());
            assert(lv.take(0) =~= seq![]);
            assert(lv.skip(0) =~= lv);
        }
        // record the new suffixes that a pointer can name
        let mut y: usize = 0;
        while y < k
            invariant
                y <= k <= ls@.len(),
                lv == views(ls@),
                name_error(lv) is None,
                out@ == nb,
                q == base + encode_labels(lv.take(k as int)).len(),
                nb.subrange(base as int, base as int + encode_labels(lv.take(k as int)).len()) == encode_labels(lv.take(k as int)),
                base + encode_labels(lv.take(k as int)).len() <= nb.len(),
                off_g < base,
                forall|s: nat, room: nat| off_g < s && room >= encode_labels(lv.skip(k as int)).len()
                    ==> #[trigger] decode(nb, q as nat, s, room) == Ok::<(Seq<Seq<u8>>, nat), ParseError>((lv.skip(k as int), nb.len())),
                positions@.len() == k,
                forall|x: int| 0 <= x < k ==> positions@[x] == base + encode_labels(lv.take(x)).len(),
                self.valid_for(nb),
                k == first_match(old(self).suffixes(), lv, 0),
                lv == split(name@),
                base == old(out)@.len(),
                self.suffixes() + new_suffixes(lv, k as int, base as int, y as int)
                    == after_write(old(self).suffixes(), lv, base as int),
                self.offsets() + new_offsets(lv, k as int, base as int, y as int)
                    == old(self).offsets() + new_offsets(lv, k as int, base as int, 0),
            decreases k - y,
        {
            let p = positions[y];
            let ghost sfx = self.suffixes();
            let ghost ofs = self.offsets();
            if p < POINTER_LIMIT {
                let entry = DictEntry { labels: copy_labels_from(&ls, y), offset: p as u16 };
                proof {
                    let sub = lv.subrange(y as int, k as int);
                    lemma_encode_append(lv.take(y as int), lv.skip(y as int));
                    assert(lv =~= lv.take(y as int) + lv.skip(y as int));
                    lemma_encode_append(sub, lv.skip(k as int));
                    assert(lv.skip(y as int) =~= sub + lv.skip(k as int));
                    let room2 = ((MAX_NAME_WIRE - 1) - encode_labels(sub).len()) as nat;
                    assert(decode(nb, q as nat, p as nat, room2) == Ok::<(Seq<Seq<u8>>, nat), ParseError>((lv.skip(k as int), nb.len())));
                    lemma_run(nb, base as nat, lv, k as nat, y as nat, p as nat, (MAX_NAME_WIRE - 1) as nat, nb.len());
                }
                let ghost before = self.dict@;
                self.dict.push(entry);
                proof {
                    assert forall|x: int| 0 <= x < self.dict@.len() implies {
                        let en = #[trigger] self.dict@[x];
                        &&& (en.offset as int) < nb.len()
                        &&& (en.offset as int) < POINTER_LIMIT
                        &&& decode(nb, en.offset as nat, en.offset as nat, (MAX_NAME_WIRE - 1) as nat) is Ok
                        &&& decode(nb, en.offset as nat, en.offset as nat, (MAX_NAME_WIRE - 1) as nat)->Ok_0.0 == views(en.labels@)
                    } by {
                        if x < before.len() {
                            assert(self.dict@[x] == before[x]);
                        }
                    }
                    assert(self.suffixes() =~= sfx.push(lv.skip(y as int)));
                    assert(self.offsets() =~= ofs.push(p as u16));
                    assert(ofs.push(p as u16) + new_offsets(lv, k as int, base as int, y + 1)
                        =~= ofs + new_offsets(lv, k as int, base as int, y as int));
                    assert(sfx.push(lv.skip(y as int)) + new_suffixes(lv, k as int, base as int, y + 1)
                        =~= sfx + new_suffixes(lv, k as int, base as int, y as int));
                }
            }
            y = y + 1;
        }
        Ok(())
    }
}

impl NameWriter {
    /// A copy of this writer, with the same dictionary.
    pub fn copy(&self) -> (r: NameWriter)
        ensures
            r.suffixes() == self.suffixes(),
            forall|buf: Seq<u8>| self.valid_for(buf) ==> r.valid_for(buf),
    {
        let mut dict: Vec<DictEntry> = Vec::new();
        let mut i: usize = 0;
        while i < self.dict.len()
            invariant
                i <= self.dict@.len(),
                dict@.len() == i,
                forall|j: int| 0 <= j < i ==> (#[trigger] dict@[j]).offset == self.dict@[j].offset
                    && views(dict@[j].labels@) == views(self.dict@[j].labels@),
            decreases self.dict@.len() - i,
        {
            let e = &self.dict[i];
            let labels = copy_labels_from(&e.labels, 0);
            assert(views(e.labels@).skip(0) =~= views(e.labels@));
            dict.push(DictEntry { labels, offset: e.offset });
            i = i + 1;
        }
        let r = NameWriter { dict };
        assert(r.suffixes() =~= self.suffixes());
        assert forall|buf: Seq<u8>| self.valid_for(buf) implies r.valid_for(buf) by {
            assert forall|x: int| 0 <= x < r.dict@.len() implies {
                let e = #[trigger] r.dict@[x];
                &&& (e.offset as int) < buf.len()
                &&& (e.offset as int) < POINTER_LIMIT
                &&& decode(buf, e.offset as nat, e.offset as nat, (MAX_NAME_WIRE - 1) as nat) is Ok
                &&& decode(buf, e.offset as nat, e.offset as nat, (MAX_NAME_WIRE - 1) as nat)->Ok_0.0 == views(e.labels@)
            } by {
                assert(self.dict@[x].offset == r.dict@[x].offset);
            }
        }
        r
    }
}

/// A name in its canonical dotted form: the dotted form of its own labels.
pub open spec fn canonical(n: Seq<u8>) -> bool {
    dotted(split(n)) == n
}

/// What writing the name would fail with, if anything.
pub fn check_name(name: &[u8]) -> (r: Option<NameError>)
    ensures
        r == name_error(split(name@)),
{
    let ls = split_name(name);
    let ghost lv = views(ls@);
    let mut i: usize = 0;
    while i < ls.len()
        invariant
            i <= ls@.len(),
            lv == views(ls@),
            lv == split(name@),
            forall|x: int| 0 <= x < i ==> 1 <= #[trigger] lv[x].len() <= 63,
        decreases ls@.len() - i,
    {
        let n = ls[i].len();
        proof {
            assert(lv[i as int] == ls@[i as int]@);
        }
        if n == 0 || n > 63 {
            assert(!labels_ok(lv));
            return Some(NameError::LabelTooLong);
        }
        i = i + 1;
    }
    assert(labels_ok(lv));
    let mut total: usize = 0;
    let mut i: usize = 0;
    while i < ls.len()
        invariant
            i <= ls@.len(),
            lv == views(ls@),
            lv == split(name@),
            labels_ok(lv),
            total == encode_labels(lv.take(i as int)).len(),
            total < MAX_NAME_WIRE,
        decreases ls@.len() - i,
    {
        proof {
            lemma_encode_push(lv, i as int);
            assert(lv[i as int] == ls@[i as int]@);
        }
        let n = ls[i].len();
        if total + 1 + n + 1 > MAX_NAME_WIRE {
            proof {
                lemma_encode_append(lv.take(i + 1), lv.skip(i + 1));
                assert(lv =~= lv.take(i + 1) + lv.skip(i + 1));
            }
            return Some(NameError::NameTooLong);
        }
        total = total + 1 + n;
        i = i + 1;
    }
    assert(lv.take(i as int) =~= lv);
    None
}

/// A name written in a buffer reads the same once bytes are appended.
pub proof fn lemma_read_name_prefix(buf: Seq<u8>, ext: Seq<u8>, pos: nat)
    requires
        read_name_spec(buf, pos) is Ok,
    ensures
        read_name_spec(buf + ext, pos) == read_name_spec(buf, pos),
        read_name_spec(buf, pos)->Ok_0.1 <= buf.len(),
{
    lemma_decode_prefix(buf, ext, pos, pos, (MAX_NAME_WIRE - 1) as nat);
}

impl NameWriter {
    /// A dictionary valid for a buffer stays valid once bytes are appended.
    pub proof fn lemma_valid_extend(&self, buf: Seq<u8>, ext: Seq<u8>)
        requires
            self.valid_for(buf),
        ensures
            self.valid_for(buf + ext),
    {
        assert forall|x: int| 0 <= x < self.dict@.len() implies {
            let e = #[trigger] self.dict@[x];
            &&& (e.offset as int) < (buf + ext).len()
            &&& (e.offset as int) < POINTER_LIMIT
            &&& decode(buf + ext, e.offset as nat, e.offset as nat, (MAX_NAME_WIRE - 1) as nat) is Ok
            &&& decode(buf + ext, e.offset as nat, e.offset as nat, (MAX_NAME_WIRE - 1) as nat)->Ok_0.0 == views(e.labels@)
        } by {
            let e = self.dict@[x];
            lemma_decode_prefix(buf, ext, e.offset as nat, e.offset as nat, (MAX_NAME_WIRE - 1) as nat);
        }
    }
}

/// Writing a valid name adds at most 256 bytes.
pub proof fn lemma_written_len_bound(dl: Seq<Seq<Seq<u8>>>, ls: Seq<Seq<u8>>)
    requires
        name_error(ls) is None,
    ensures
        written_len(dl, ls) <= MAX_NAME_WIRE + 1,
        written_len(dl, ls) >= 1,
{
    let k = first_match(dl, ls, 0);
    lemma_first_match_range(dl, ls, 0);
    lemma_encode_append(ls.take(k), ls.skip(k));
    assert(ls =~= ls.take(k) + ls.skip(k));
}

/// The match index lies between the start and the label count.
pub proof fn lemma_first_match_range(dl: Seq<Seq<Seq<u8>>>, ls: Seq<Seq<u8>>, j: int)
    requires
        0 <= j,
    ensures
        j <= ls.len() ==> j <= first_match(dl, ls, j) <= ls.len(),
        j > ls.len() ==> first_match(dl, ls, j) == ls.len(),
    decreases ls.len() - j,
{
    if j < ls.len() && !matched(dl, ls, j) {
        lemma_first_match_range(dl, ls, j + 1);
    }
}

/// Every member of `c` holds a pointer to the next member, the last to the
/// first: a pointer cycle of any length.
pub open spec fn pointer_cycle(msg: Seq<u8>, c: Seq<nat>) -> bool {
    &&& c.len() >= 1
    &&& forall|j: int| 0 <= j < c.len() ==> {
        &&& #[trigger] c[j] + 1 < msg.len()
        &&& msg[c[j] as int] >= 192
        &&& pointer_target(msg[c[j] as int], msg[c[j] as int + 1]) == c[(j + 1) % (c.len() as int)]
    }
}

/// Decoding at any member of a pointer cycle fails with `PointerLoop`, in a
/// bounded number of steps (the decoding terminates on every input).
pub proof fn lemma_pointer_cycle_decode(msg: Seq<u8>, c: Seq<nat>, i: int, room: nat)
    requires
        pointer_cycle(msg, c),
        0 <= i < c.len(),
    ensures
        decode(msg, c[i], c[i], room) == Err::<(Seq<Seq<u8>>, nat), ParseError>(ParseError::PointerLoop),
    decreases c[i],
{
    let n = c.len() as int;
    let next = (i + 1) % n;
    assert(0 <= next < n);
    assert(c[i] + 1 < msg.len());
    if c[next] < c[i] {
        lemma_pointer_cycle_decode(msg, c, next, room);
    }
}

/// Reading a name at any member of a pointer cycle fails with `PointerLoop`.
pub proof fn lemma_pointer_cycle_rejected(msg: Seq<u8>, c: Seq<nat>, i: int)
    requires
        pointer_cycle(msg, c),
        0 <= i < c.len(),
    ensures
        read_name_spec(msg, c[i]) == Err::<(Seq<u8>, nat), ParseError>(ParseError::PointerLoop),
{
    lemma_pointer_cycle_decode(msg, c, i, (MAX_NAME_WIRE - 1) as nat);
}

} // verus!
