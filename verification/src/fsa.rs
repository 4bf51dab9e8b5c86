//! Reader for Morfologik's CFSA2 finite-state automaton format (magic `\fsa`,
//! version byte `0xC6`), the on-disk format of LanguageTool's `.dict` files.
//!
//! The arc byte layout: the high bit marks "target is the next node", bit 6
//! "last arc of its node", bit 5 "a word ends here", and the low five bits index
//! the label table (0 = label stored inline in the following byte). Explicit
//! targets are little-endian base-128 integers.
//!
//! Every accessor is total: a position outside the arc bytes reads as a zero
//! byte, so a damaged file yields "no arc" answers instead of a panic. On a
//! well-formed automaton this never triggers.

use vstd::prelude::*;

verus! {

/// Why a `.dict` file could not be read as a CFSA2 automaton.
#[derive(Debug, Clone, Copy, PartialEq, Eq)]
pub enum FsaError {
    BadMagic,
    UnsupportedVersion(u8),
    Truncated,
}

pub struct Cfsa2 {
    arcs: Vec<u8>,
    label_mapping: Vec<u8>,
    has_numbers: bool,
}

/// Header check of a raw `.dict` file: `Ok((flags, label-map size))` or the
/// reason it is refused.
pub open spec fn header_check(b: Seq<u8>) -> Result<(u16, int), FsaError> {
    if b.len() < 5 {
        Err(FsaError::Truncated)
    } else if !(b[0] == 0x5c && b[1] == 0x66 && b[2] == 0x73 && b[3] == 0x61) {
        Err(FsaError::BadMagic)
    } else if b[4] != 0xc6 {
        Err(FsaError::UnsupportedVersion(b[4]))
    } else if b.len() < 8 {
        Err(FsaError::Truncated)
    } else if b.len() < 8 + b[7] {
        Err(FsaError::Truncated)
    } else {
        Ok(((b[5] * 256 + b[6]) as u16, b[7] as int))
    }
}

/// `f` is the automaton stored in the `.dict` bytes `b`.
pub open spec fn parsed_from(f: Cfsa2, b: Seq<u8>) -> bool {
    match header_check(b) {
        Err(_) => false,
        Ok((flags, m)) => {
            &&& f.labels() == b.subrange(8, 8 + m)
            &&& f.arc_bytes() == b.skip(8 + m)
            &&& f.numbered() == ((flags / 256) % 2 == 1)
        },
    }
}

/// Decoding facts shared by every method: an arc byte and the positions around
/// it, read as zero beyond the end.
impl Cfsa2 {
    #[verifier::type_invariant]
    closed spec fn inv(self) -> bool {
        &&& self.arcs@.len() + 8 <= usize::MAX
        &&& self.label_mapping@.len() <= 256
    }

    /// The arc bytes.
    pub closed spec fn arc_bytes(self) -> Seq<u8> {
        self.arcs@
    }

    /// The label lookup table.
    pub closed spec fn labels(self) -> Seq<u8> {
        self.label_mapping@
    }

    /// Whether nodes carry a perfect-hash number prefix (`NUMBERS` flag).
    pub closed spec fn numbered(self) -> bool {
        self.has_numbers
    }

    /// The root node: the target of the first arc of the initial node.
    pub open spec fn root_pos(self) -> int {
        self.spec_dest(self.spec_first_arc(0))
    }

    pub open spec fn len(self) -> int {
        self.arc_bytes().len() as int
    }

    /// The arc byte at `i`, zero outside the arcs.
    pub open spec fn byte(self, i: int) -> u8 {
        if 0 <= i < self.len() {
            self.arc_bytes()[i]
        } else {
            0
        }
    }

    pub open spec fn spec_next_set(self, arc: int) -> bool {
        self.byte(arc) >= 128
    }

    pub open spec fn spec_last(self, arc: int) -> bool {
        (self.byte(arc) / 64) % 2 == 1
    }

    pub open spec fn spec_final(self, arc: int) -> bool {
        (self.byte(arc) / 32) % 2 == 1
    }

    pub open spec fn label_index(self, arc: int) -> int {
        (self.byte(arc) % 32) as int
    }

    /// Label of `arc`: from the table, or the inline byte after the flags.
    pub open spec fn spec_label(self, arc: int) -> u8 {
        let i = self.label_index(arc);
        if i > 0 {
            if i < self.labels().len() {
                self.labels()[i]
            } else {
                0
            }
        } else {
            self.byte(arc + 1)
        }
    }

    /// Number of bytes of the base-128 integer at `off`.
    pub open spec fn vint_len(self, off: int) -> nat
        decreases self.len() - off,
    {
        if off < 0 || off >= self.len() || self.byte(off) < 128 {
            1
        } else {
            1 + self.vint_len(off + 1)
        }
    }

    /// Value of the little-endian base-128 integer at `off`.
    pub open spec fn vint_val(self, off: int) -> int
        decreases self.len() - off,
    {
        if off < 0 || off >= self.len() || self.byte(off) < 128 {
            self.byte(off) as int
        } else {
            (self.byte(off) - 128) + 128 * self.vint_val(off + 1)
        }
    }

    /// The integer at `off`, saturated at `usize::MAX`.
    pub open spec fn vint(self, off: int) -> usize {
        let v = self.vint_val(off);
        if v <= usize::MAX {
            v as usize
        } else {
            usize::MAX
        }
    }

    /// Position just after the integer at `off`.
    pub open spec fn spec_skip_vint(self, off: int) -> int {
        off + self.vint_len(off)
    }

    /// Position just after the whole arc (flags, inline label, explicit target).
    pub open spec fn spec_skip_arc(self, arc: int) -> int {
        let p = arc + 1 + (if self.label_index(arc) == 0 {
            1int
        } else {
            0int
        });
        if self.spec_next_set(arc) {
            p
        } else {
            self.spec_skip_vint(p)
        }
    }

    /// The following arc of the same node, or 0 after the last one.
    pub open spec fn spec_next_arc(self, arc: int) -> int {
        if self.spec_last(arc) {
            0
        } else {
            let s = self.spec_skip_arc(arc);
            if s >= self.len() {
                0
            } else {
                s
            }
        }
    }

    /// The last arc of the node that `arc` belongs to.
    pub open spec fn last_arc_from(self, arc: int) -> int
        decreases self.len() - arc,
    {
        if self.spec_last(arc) || arc < 0 || arc >= self.len() {
            arc
        } else {
            let s = self.spec_skip_arc(arc);
            if s >= self.len() {
                arc
            } else {
                self.last_arc_from(s)
            }
        }
    }

    /// The node an arc leads to (0 = terminal arc).
    pub open spec fn spec_dest(self, arc: int) -> int {
        if self.spec_next_set(arc) {
            self.spec_skip_arc(self.last_arc_from(arc))
        } else {
            self.vint(
                arc + (if self.label_index(arc) == 0 {
                    2int
                } else {
                    1int
                }),
            ) as int
        }
    }

    /// The first arc of a node.
    pub open spec fn spec_first_arc(self, node: int) -> int {
        if node < 0 || node >= self.len() {
            0
        } else if self.numbered() {
            self.spec_skip_vint(node)
        } else {
            node
        }
    }

    /// The arc labelled `label` among the arcs from `arc` on, or 0.
    pub open spec fn find_arc_from(self, arc: int, label: u8) -> int
        decreases self.len() - arc,
    {
        if arc <= 0 || arc >= self.len() {
            0
        } else if self.spec_label(arc) == label {
            arc
        } else {
            let n = self.spec_next_arc(arc);
            if n == 0 {
                0
            } else {
                self.find_arc_from(n, label)
            }
        }
    }

    /// The outgoing arc of `node` labelled `label`, or 0.
    pub open spec fn spec_get_arc(self, node: int, label: u8) -> int {
        self.find_arc_from(self.spec_first_arc(node), label)
    }

    /// Looking up a label walks the arcs of a node in order: the arc itself
    /// when it carries the label; otherwise 0 after the node's last arc, and
    /// else the lookup goes on at the next arc (the position just past this
    /// one), as long as that lies in the arcs.
    pub proof fn lemma_find_arc_step(self, arc: int, label: u8)
        requires
            0 < arc < self.len(),
        ensures
            self.find_arc_from(arc, label) == (if self.spec_label(arc) == label {
                arc
            } else if self.spec_last(arc) || self.spec_skip_arc(arc) >= self.len() {
                0
            } else {
                self.find_arc_from(self.spec_skip_arc(arc), label)
            }),
    {
    }

    /// All sequences accepted from the arcs starting at `arc` (to the end of
    /// its node), each preceded by `prefix`, in depth-first arc order. `fuel`
    /// bounds the depth.
    pub open spec fn arc_list_seqs(self, prefix: Seq<u8>, arc: int, fuel: nat) -> Seq<Seq<u8>>
        decreases fuel, if 0 <= arc < self.len() {
            self.len() - arc
        } else {
            0
        },
    {
        if arc <= 0 || arc >= self.len() || fuel == 0 {
            Seq::empty()
        } else {
            let p = prefix.push(self.spec_label(arc));
            let here: Seq<Seq<u8>> = if self.spec_final(arc) {
                seq![p]
            } else {
                Seq::empty()
            };
            let d = self.spec_dest(arc);
            let below = if d == 0 {
                Seq::empty()
            } else {
                self.node_seqs(p, d, (fuel - 1) as nat)
            };
            let n = self.spec_next_arc(arc);
            let rest = if n == 0 {
                Seq::empty()
            } else {
                self.arc_list_seqs(prefix, n, fuel)
            };
            here + below + rest
        }
    }

    /// All sequences accepted from `node`, each preceded by `prefix`.
    pub open spec fn node_seqs(self, prefix: Seq<u8>, node: int, fuel: nat) -> Seq<Seq<u8>>
        decreases fuel, self.len() + 1,
    {
        let f = self.spec_first_arc(node);
        if fuel == 0 || f <= 0 || f >= self.len() {
            Seq::empty()
        } else {
            self.arc_list_seqs(prefix, f, fuel)
        }
    }

    /// The byte sequences the automaton accepts, in depth-first order.
    pub open spec fn accepted(self) -> Seq<Seq<u8>> {
        self.node_seqs(Seq::empty(), self.root_pos(), self.len() as nat)
    }
}

proof fn lemma_vint_nonneg(f: Cfsa2, off: int)
    ensures
        f.vint_val(off) >= 0,
    decreases f.len() - off,
{
    if !(off < 0 || off >= f.len() || f.byte(off) < 128) {
        lemma_vint_nonneg(f, off + 1);
    }
}

proof fn lemma_vint_len_bound(f: Cfsa2, off: int)
    requires
        0 <= off <= f.len() + 1,
    ensures
        off + f.vint_len(off) <= f.len() + 2,
    decreases f.len() - off,
{
    if !(off < 0 || off >= f.len() || f.byte(off) < 128) {
        lemma_vint_len_bound(f, off + 1);
    }
}

impl Cfsa2 {
    /// Parse a CFSA2 automaton from the full bytes of a `.dict` file.
    pub fn parse(bytes: &[u8]) -> (r: Result<Cfsa2, FsaError>)
        ensures
            match header_check(bytes@) {
                Err(e) => r == Err::<Cfsa2, FsaError>(e),
                Ok(_) => r is Ok && parsed_from(r->Ok_0, bytes@),
            },
    {
        if bytes.len() < 5 {
            return Err(FsaError::Truncated);
        }
        if !(bytes[0] == 0x5c && bytes[1] == 0x66 && bytes[2] == 0x73 && bytes[3] == 0x61) {
            return Err(FsaError::BadMagic);
        }
        let version = bytes[4];
        if version != 0xc6 {
            return Err(FsaError::UnsupportedVersion(version));
        }
        if bytes.len() < 8 {
            return Err(FsaError::Truncated);
        }
        let flag_bits: u16 = (bytes[5] as u16) * 256 + (bytes[6] as u16);
        let has_numbers = (flag_bits / 256) % 2 == 1;
        let label_mapping_size = bytes[7] as usize;
        let map_start: usize = 8;
        let arcs_start = map_start + label_mapping_size;
        if bytes.len() < arcs_start {
            return Err(FsaError::Truncated);
        }
        let mut label_mapping: Vec<u8> = Vec::new();
        let mut i: usize = map_start;
        while i < arcs_start
            invariant
                map_start <= i <= arcs_start <= bytes@.len(),
                label_mapping@ == bytes@.subrange(map_start as int, i as int),
            decreases arcs_start - i,
        {
            label_mapping.push(bytes[i]);
            i += 1;
        }
        let mut arcs: Vec<u8> = Vec::new();
        let mut j: usize = arcs_start;
        while j < bytes.len()
            invariant
                arcs_start <= j <= bytes@.len(),
                arcs@ == bytes@.subrange(arcs_start as int, j as int),
            decreases bytes.len() - j,
        {
            arcs.push(bytes[j]);
            j += 1;
        }
        assert(arcs@ =~= bytes@.skip(arcs_start as int));
        Ok(Cfsa2 { arcs, label_mapping, has_numbers })
    }

    /// The arc byte at `i` (zero beyond the end).
    fn byte_at(&self, i: usize) -> (b: u8)
        ensures
            b == self.byte(i as int),
    {
        if i < self.arcs.len() {
            self.arcs[i]
        } else {
            0
        }
    }

    /// Number of arc bytes.
    pub fn arc_count(&self) -> (r: usize)
        ensures
            r == self.len(),
    {
        self.arcs.len()
    }

    /// The root node.
    pub fn root_node(&self) -> (r: usize)
        ensures
            r as int == self.root_pos(),
    {
        let first = self.first_arc_in(0);
        self.get_destination_node_offset(first)
    }

    fn is_arc_last(&self, arc: usize) -> (r: bool)
        ensures
            r == self.spec_last(arc as int),
    {
        (self.byte_at(arc) / 64) % 2 == 1
    }

    fn is_next_set(&self, arc: usize) -> (r: bool)
        ensures
            r == self.spec_next_set(arc as int),
    {
        self.byte_at(arc) >= 128
    }

    /// A word ends at this arc.
    pub fn is_arc_final(&self, arc: usize) -> (r: bool)
        ensures
            r == self.spec_final(arc as int),
    {
        (self.byte_at(arc) / 32) % 2 == 1
    }

    /// A terminal arc leads to no node (it only marks a word end).
    pub fn is_arc_terminal(&self, arc: usize) -> (r: bool)
        ensures
            r == (self.spec_dest(arc as int) == 0),
    {
        self.get_destination_node_offset(arc) == 0
    }

    /// The label byte of `arc`.
    pub fn get_arc_label(&self, arc: usize) -> (r: u8)
        ensures
            r == self.spec_label(arc as int),
    {
        proof {
            use_type_invariant(self);
        }
        let index = (self.byte_at(arc) % 32) as usize;
        if index > 0 {
            if index < self.label_mapping.len() {
                self.label_mapping[index]
            } else {
                0
            }
        } else if arc < self.arcs.len() {
            self.byte_at(arc + 1)
        } else {
            0
        }
    }

    /// The first arc of `node`: the node itself, or the position after its
    /// number when nodes are numbered (the number must lie in the arcs).
    pub fn get_first_arc(&self, node: usize) -> (r: usize)
        requires
            self.numbered() ==> node < self.len() && self.spec_skip_vint(node as int) <= self.len(),
        ensures
            r as int == (if self.numbered() {
                self.spec_skip_vint(node as int)
            } else {
                node as int
            }),
    {
        proof {
            use_type_invariant(self);
        }
        if self.has_numbers {
            self.skip_vint(node)
        } else {
            node
        }
    }

    /// The first arc of `node`, or 0 when `node` lies outside the arcs.
    fn first_arc_in(&self, node: usize) -> (r: usize)
        ensures
            r as int == self.spec_first_arc(node as int),
    {
        proof {
            use_type_invariant(self);
        }
        if node >= self.arcs.len() {
            0
        } else if self.has_numbers {
            self.skip_vint(node)
        } else {
            node
        }
    }

    /// The next arc of the same node: 0 if `arc` was the last, otherwise the
    /// position just past `arc` (its flags, inline label and target number,
    /// which must lie in the arcs).
    pub fn get_next_arc(&self, arc: usize) -> (r: usize)
        requires
            arc < self.len(),
            self.spec_last(arc as int) || self.spec_next_set(arc as int) || self.spec_skip_arc(
                arc as int,
            ) <= self.len(),
        ensures
            r as int == (if self.spec_last(arc as int) {
                0
            } else {
                self.spec_skip_arc(arc as int)
            }),
    {
        if self.is_arc_last(arc) {
            0
        } else {
            self.skip_arc(arc)
        }
    }

    /// The next arc of the same node, or 0 if `arc` was the last or the next
    /// position lies outside the arcs.
    fn next_arc_in(&self, arc: usize) -> (r: usize)
        ensures
            r as int == self.spec_next_arc(arc as int),
            r == 0 || (arc < r < self.len()),
    {
        proof {
            use_type_invariant(self);
        }
        if self.is_arc_last(arc) {
            0
        } else if arc >= self.arcs.len() {
            proof {
                assert(self.spec_skip_arc(arc as int) >= self.len());
            }
            0
        } else {
            let s = self.skip_arc(arc);
            if s >= self.arcs.len() {
                0
            } else {
                s
            }
        }
    }

    /// The node `arc` leads to.
    pub fn get_end_node(&self, arc: usize) -> (r: usize)
        ensures
            r as int == self.spec_dest(arc as int),
    {
        self.get_destination_node_offset(arc)
    }

    /// The outgoing arc of `node` labelled `label`, or 0 if none.
    pub fn get_arc(&self, node: usize, label: u8) -> (r: usize)
        ensures
            r as int == self.spec_get_arc(node as int, label),
    {
        proof {
            use_type_invariant(self);
        }
        let mut arc = self.first_arc_in(node);
        while arc != 0 && arc < self.arcs.len()
            invariant
                self.spec_get_arc(node as int, label) == self.find_arc_from(arc as int, label),
            decreases self.len() - arc,
        {
            if self.get_arc_label(arc) == label {
                return arc;
            }
            let n = self.next_arc_in(arc);
            if n == 0 {
                return 0;
            }
            arc = n;
        }
        0
    }

    /// Position of the arc's target: the node right after this node's last arc
    /// when the "next" bit is set, otherwise the explicit integer.
    fn get_destination_node_offset(&self, arc: usize) -> (r: usize)
        ensures
            r as int == self.spec_dest(arc as int),
    {
        proof {
            use_type_invariant(self);
        }
        if self.is_next_set(arc) {
            let mut a = arc;
            loop
                invariant
                    a < self.len(),
                    self.last_arc_from(arc as int) == self.last_arc_from(a as int),
                ensures
                    a < self.len(),
                    self.last_arc_from(arc as int) == a,
                decreases self.len() - a,
            {
                if self.is_arc_last(a) {
                    break;
                }
                let s = self.skip_arc(a);
                if s >= self.arcs.len() {
                    break;
                }
                a = s;
            }
            self.skip_arc(a)
        } else {
            if arc >= self.arcs.len() {
                proof {
                    assert(self.byte(arc as int) == 0);
                    assert(self.vint_val(arc + 2) == 0);
                }
                return 0;
            }
            let off = arc + if self.byte_at(arc) % 32 == 0 {
                2
            } else {
                1
            };
            self.read_vint(off)
        }
    }

    /// Position just after the whole arc.
    fn skip_arc(&self, offset: usize) -> (r: usize)
        requires
            offset < self.len(),
        ensures
            r as int == self.spec_skip_arc(offset as int),
            offset < r <= self.len() + 2,
    {
        proof {
            use_type_invariant(self);
        }
        let flag = self.byte_at(offset);
        let mut p = offset + 1;
        if flag % 32 == 0 {
            p = p + 1;
        }
        if flag < 128 {
            proof {
                lemma_vint_len_bound(*self, p as int);
            }
            p = self.skip_vint(p);
        }
        p
    }

    /// Position just after the base-128 integer at `offset`.
    fn skip_vint(&self, offset: usize) -> (r: usize)
        requires
            offset <= self.len() + 1,
        ensures
            r as int == self.spec_skip_vint(offset as int),
            offset < r,
            r <= self.len() + 2,
    {
        proof {
            use_type_invariant(self);
        }
        let mut o = offset;
        while o < self.arcs.len() && self.arcs[o] >= 128
            invariant
                offset <= o <= self.len() + 1,
                offset as int + self.vint_len(offset as int) == o as int + self.vint_len(
                    o as int,
                ),
            decreases self.len() - o,
        {
            o += 1;
        }
        o + 1
    }

    /// The base-128 integer at `offset`, saturated at `usize::MAX`.
    fn read_vint(&self, offset: usize) -> (r: usize)
        requires
            offset <= self.len() + 1,
        ensures
            r == self.vint(offset as int),
        decreases self.len() - offset,
    {
        proof {
            use_type_invariant(self);
        }
        let b = self.byte_at(offset);
        if offset >= self.arcs.len() || b < 128 {
            return b as usize;
        }
        let rest = self.read_vint(offset + 1);
        let low = (b - 128) as usize;
        proof {
            lemma_vint_nonneg(*self, offset + 1);
        }
        if rest > (usize::MAX - low) / 128 {
            proof {
                let v = self.vint_val(offset + 1);
                assert(v >= rest);
                assert(low + 128 * v > usize::MAX) by (nonlinear_arith)
                    requires
                        v >= rest,
                        rest > (usize::MAX - low) / 128,
                        low < 128,
                ;
            }
            usize::MAX
        } else {
            proof {
                let v = self.vint_val(offset + 1);
                assert(v == rest);
                assert(low + 128 * rest <= usize::MAX) by (nonlinear_arith)
                    requires
                        rest <= (usize::MAX - low) / 128,
                        low < 128,
                ;
            }
            low + 128 * rest
        }
    }

    /// Every byte sequence accepted by the automaton, in depth-first arc order.
    pub fn for_each_sequence(&self) -> (r: Vec<Vec<u8>>)
        ensures
            r@.map_values(|v: Vec<u8>| v@) == self.accepted(),
    {
        let mut out: Vec<Vec<u8>> = Vec::new();
        let mut buf: Vec<u8> = Vec::new();
        let root = self.root_node();
        self.walk(root, self.arcs.len(), &mut buf, &mut out);
        assert(out@.map_values(|v: Vec<u8>| v@) =~= self.accepted());
        out
    }

    /// Appends to `out` every sequence accepted from `node` (depth at most
    /// `fuel`), each preceded by the current `buf`.
    pub fn walk(&self, node: usize, fuel: usize, buf: &mut Vec<u8>, out: &mut Vec<Vec<u8>>)
        ensures
            final(buf)@ == old(buf)@,
            final(out)@.map_values(|v: Vec<u8>| v@) == old(out)@.map_values(|v: Vec<u8>| v@)
                + self.node_seqs(old(buf)@, node as int, fuel as nat),
        decreases fuel, 1int,
    {
        let first = self.first_arc_in(node);
        if fuel == 0 || first == 0 || first >= self.arcs.len() {
            assert(self.node_seqs(buf@, node as int, fuel as nat) =~= Seq::<Seq<u8>>::empty());
            assert(out@.map_values(|v: Vec<u8>| v@) =~= old(out)@.map_values(|v: Vec<u8>| v@)
                + Seq::<Seq<u8>>::empty());
            return;
        }
        self.walk_arcs(first, fuel, buf, out);
    }

    fn walk_arcs(&self, first: usize, fuel: usize, buf: &mut Vec<u8>, out: &mut Vec<Vec<u8>>)
        requires
            0 < first < self.len(),
            fuel > 0,
        ensures
            final(buf)@ == old(buf)@,
            final(out)@.map_values(|v: Vec<u8>| v@) == old(out)@.map_values(|v: Vec<u8>| v@)
                + self.arc_list_seqs(old(buf)@, first as int, fuel as nat),
        decreases fuel, 0int,
    {
        let ghost prefix = buf@;
        let ghost start = old(out)@.map_values(|v: Vec<u8>| v@);
        let mut arc = first;
        assert(start + self.arc_list_seqs(prefix, first as int, fuel as nat) == out@.map_values(
            |v: Vec<u8>| v@,
        ) + self.arc_list_seqs(prefix, arc as int, fuel as nat));
        loop
            invariant_except_break
                start + self.arc_list_seqs(prefix, first as int, fuel as nat) == out@.map_values(
                    |v: Vec<u8>| v@,
                ) + self.arc_list_seqs(prefix, arc as int, fuel as nat),
            invariant
                0 < arc < self.len(),
                fuel > 0,
                buf@ == prefix,
            ensures
                buf@ == prefix,
                start + self.arc_list_seqs(prefix, first as int, fuel as nat) == out@.map_values(
                    |v: Vec<u8>| v@,
                ),
            decreases self.len() - arc,
        {
            let ghost o0 = out@.map_values(|v: Vec<u8>| v@);
            let label = self.get_arc_label(arc);
            buf.push(label);
            let ghost p = buf@;
            if self.is_arc_final(arc) {
                out.push(buf.clone());
            }
            let ghost here: Seq<Seq<u8>> = if self.spec_final(arc as int) {
                seq![p]
            } else {
                Seq::empty()
            };
            assert(out@.map_values(|v: Vec<u8>| v@) =~= o0 + here);
            let ghost o1 = out@.map_values(|v: Vec<u8>| v@);
            let d = self.get_destination_node_offset(arc);
            if d != 0 {
                self.walk(d, fuel - 1, buf, out);
            }
            let ghost below = if d == 0 {
                Seq::<Seq<u8>>::empty()
            } else {
                self.node_seqs(p, d as int, (fuel - 1) as nat)
            };
            assert(out@.map_values(|v: Vec<u8>| v@) =~= o1 + below);
            buf.pop();
            assert(buf@ =~= prefix);
            let n = self.next_arc_in(arc);
            let ghost rest = if n == 0 {
                Seq::<Seq<u8>>::empty()
            } else {
                self.arc_list_seqs(prefix, n as int, fuel as nat)
            };
            assert(self.arc_list_seqs(prefix, arc as int, fuel as nat) == here + below + rest);
            assert(o0 + (here + below + rest) =~= (o0 + here + below) + rest);
            if n == 0 {
                assert(out@.map_values(|v: Vec<u8>| v@) + rest =~= out@.map_values(
                    |v: Vec<u8>| v@,
                ));
                break;
            }
            arc = n;
        }
    }
}

/// Two automata with the same arc bytes, label table and numbering.
pub open spec fn same_automaton(a: Cfsa2, b: Cfsa2) -> bool {
    a.arc_bytes() == b.arc_bytes() && a.labels() == b.labels() && a.numbered() == b.numbered()
}

/// Automata read from the same bytes are the same automaton.
pub proof fn lemma_parsed_same(a: Cfsa2, b: Cfsa2, bytes: Seq<u8>)
    requires
        parsed_from(a, bytes),
        parsed_from(b, bytes),
    ensures
        same_automaton(a, b),
{
}

proof fn lemma_same_vint(a: Cfsa2, b: Cfsa2, off: int)
    requires
        same_automaton(a, b),
    ensures
        a.vint_len(off) == b.vint_len(off),
        a.vint_val(off) == b.vint_val(off),
    decreases a.len() - off,
{
    if !(off < 0 || off >= a.len() || a.byte(off) < 128) {
        lemma_same_vint(a, b, off + 1);
    }
}

proof fn lemma_same_last_arc(a: Cfsa2, b: Cfsa2, arc: int)
    requires
        same_automaton(a, b),
    ensures
        a.last_arc_from(arc) == b.last_arc_from(arc),
    decreases a.len() - arc,
{
    let p = arc + 1 + (if a.label_index(arc) == 0 {
        1int
    } else {
        0int
    });
    lemma_same_vint(a, b, p);
    if !(a.spec_last(arc) || arc < 0 || arc >= a.len()) {
        let s = a.spec_skip_arc(arc);
        if s < a.len() {
            lemma_same_last_arc(a, b, s);
        }
    }
}

/// The destination and the next arc of an arc agree between the same
/// automata.
proof fn lemma_same_arc(a: Cfsa2, b: Cfsa2, arc: int)
    requires
        same_automaton(a, b),
    ensures
        a.spec_next_arc(arc) == b.spec_next_arc(arc),
        a.spec_dest(arc) == b.spec_dest(arc),
        a.spec_label(arc) == b.spec_label(arc),
        a.spec_final(arc) == b.spec_final(arc),
{
    let p = arc + 1 + (if a.label_index(arc) == 0 {
        1int
    } else {
        0int
    });
    lemma_same_vint(a, b, p);
    lemma_same_last_arc(a, b, arc);
    let l = a.last_arc_from(arc);
    let q = l + 1 + (if a.label_index(l) == 0 {
        1int
    } else {
        0int
    });
    lemma_same_vint(a, b, q);
    let v = arc + (if a.label_index(arc) == 0 {
        2int
    } else {
        1int
    });
    lemma_same_vint(a, b, v);
}

proof fn lemma_same_find(a: Cfsa2, b: Cfsa2, arc: int, label: u8)
    requires
        same_automaton(a, b),
    ensures
        a.find_arc_from(arc, label) == b.find_arc_from(arc, label),
    decreases a.len() - arc,
{
    lemma_same_arc(a, b, arc);
    if !(arc <= 0 || arc >= a.len()) && a.spec_label(arc) != label {
        let n = a.spec_next_arc(arc);
        if n != 0 {
            lemma_same_find(a, b, n, label);
        }
    }
}

/// The same automata agree on every arc lookup, destination and finality.
pub proof fn lemma_same_lookup(a: Cfsa2, b: Cfsa2, node: int, label: u8)
    requires
        same_automaton(a, b),
    ensures
        a.spec_get_arc(node, label) == b.spec_get_arc(node, label),
        a.spec_dest(node) == b.spec_dest(node),
        a.spec_final(node) == b.spec_final(node),
        a.root_pos() == b.root_pos(),
{
    lemma_same_vint(a, b, node);
    lemma_same_find(a, b, a.spec_first_arc(node), label);
    lemma_same_arc(a, b, node);
    lemma_same_vint(a, b, 0);
    lemma_same_arc(a, b, a.spec_first_arc(0));
}

} // verus!
