//! The process state and its flat, word-by-word snapshot format.

use vstd::prelude::*;

verus! {

/// The execution states of a frame. `NOR` is the only one from which
/// instructions execute; every other one ends the frame.
#[derive(Debug, Clone, Copy, PartialEq, Eq, Structural)]
pub enum Stati {
    /// Running.
    NOR,
    /// Halted.
    HLT,
    /// Returned.
    RET,
    /// Suspended for the host.
    YLD,
    /// The instruction pointer left the code.
    OOC,
    /// The code ends inside the instruction.
    OOA,
    /// The stack is too shallow for the instruction.
    OOS,
    /// A budget does not cover the step.
    OOM,
    /// The code word names no instruction that can run.
    UOC,
}

impl Stati {
    /// The word that stands for the status in a header.
    pub open spec fn spec_word(self) -> u64 {
        match self {
            Stati::NOR => 0,
            Stati::HLT => 1,
            Stati::RET => 2,
            Stati::YLD => 3,
            Stati::OOC => 4,
            Stati::OOA => 5,
            Stati::OOS => 6,
            Stati::OOM => 7,
            Stati::UOC => 8,
        }
    }

    /// The word that stands for the status in a header.
    #[verifier::when_used_as_spec(spec_word)]
    pub fn word(self) -> (w: u64)
        ensures
            w == self.spec_word(),
    {
        match self {
            Stati::NOR => 0,
            Stati::HLT => 1,
            Stati::RET => 2,
            Stati::YLD => 3,
            Stati::OOC => 4,
            Stati::OOA => 5,
            Stati::OOS => 6,
            Stati::OOM => 7,
            Stati::UOC => 8,
        }
    }

    /// The status that a header word stands for, if it stands for one.
    pub fn from_u64(word: u64) -> (r: Option<Stati>)
        ensures
            match r {
                Some(st) => st.spec_word() == word,
                None => word > 8,
            },
    {
        match word {
            0 => Some(Stati::NOR),
            1 => Some(Stati::HLT),
            2 => Some(Stati::RET),
            3 => Some(Stati::YLD),
            4 => Some(Stati::OOC),
            5 => Some(Stati::OOA),
            6 => Some(Stati::OOS),
            7 => Some(Stati::OOM),
            8 => Some(Stati::UOC),
            _ => None,
        }
    }
}

/// The five header words of a process.
#[derive(Debug, Clone, Copy, PartialEq, Eq, Structural)]
pub struct Header {
    /// The execution state, as the word of a `Stati`.
    pub status: u64,
    /// Zero, or one more than the area of a call that is in flight.
    pub rec: u64,
    /// The steps that are left.
    pub gas: u64,
    /// The memory budget that is left.
    pub mem: u64,
    /// The index into `code` of the next instruction.
    pub ip: u64,
}

/// The unit of execution state.
#[derive(Debug, PartialEq, Eq)]
pub struct Process {
    pub header: Header,
    pub code: Vec<u64>,
    pub stack: Vec<u64>,
    pub map: Vec<u64>,
    pub memory: Vec<Vec<u64>>,
}

/// A process as a mathematical value.
pub struct ProcessView {
    pub header: Header,
    pub code: Seq<u64>,
    pub stack: Seq<u64>,
    pub map: Seq<u64>,
    pub memory: Seq<Seq<u64>>,
}

/// The contents of a list of areas.
pub open spec fn areas_view(memory: Seq<Vec<u64>>) -> Seq<Seq<u64>> {
    Seq::new(memory.len(), |i: int| memory[i]@)
}

impl View for Process {
    type V = ProcessView;

    open spec fn view(&self) -> ProcessView {
        ProcessView {
            header: self.header,
            code: self.code@,
            stack: self.stack@,
            map: self.map@,
            memory: areas_view(self.memory@),
        }
    }
}

/// Why a snapshot was rejected.
#[derive(Debug, Clone, Copy, PartialEq, Eq, Structural)]
pub enum DecodeError {
    /// The words end before the contents that the length words announce.
    Truncated,
    /// Words are left over after the last announced area.
    Trailing,
}

/// The number of words before `code`: five header words and four lengths.
pub const PREFIX_LEN: usize = 9;

/// The words of a list of areas: each area's length, then its words.
pub open spec fn encode_areas(memory: Seq<Seq<u64>>) -> Seq<u64>
    decreases memory.len(),
{
    if memory.len() == 0 {
        Seq::empty()
    } else {
        seq![memory[0].len() as u64] + memory[0] + encode_areas(memory.skip(1))
    }
}

/// The snapshot of a process: header, lengths, code, stack, map, areas.
pub open spec fn encode(p: ProcessView) -> Seq<u64> {
    seq![
        p.header.status,
        p.header.rec,
        p.header.gas,
        p.header.mem,
        p.header.ip,
        p.code.len() as u64,
        p.stack.len() as u64,
        p.map.len() as u64,
        p.memory.len() as u64,
    ] + p.code + p.stack + p.map + encode_areas(p.memory)
}

/// Whether every length of the process fits a length word. It does for every
/// process in memory.
pub open spec fn representable(p: ProcessView) -> bool {
    &&& p.code.len() <= u64::MAX
    &&& p.stack.len() <= u64::MAX
    &&& p.map.len() <= u64::MAX
    &&& p.memory.len() <= u64::MAX
    &&& forall|i: int| 0 <= i < p.memory.len() ==> (#[trigger] p.memory[i]).len() <= u64::MAX
}

/// Reads `count` areas that fill `words` exactly.
pub open spec fn decode_areas(words: Seq<u64>, count: nat) -> Result<Seq<Seq<u64>>, DecodeError>
    decreases count,
{
    if count == 0 {
        if words.len() == 0 {
            Ok(Seq::empty())
        } else {
            Err(DecodeError::Trailing)
        }
    } else if words.len() == 0 || words[0] > words.len() - 1 {
        Err(DecodeError::Truncated)
    } else {
        match decode_areas(words.skip(1 + words[0]), (count - 1) as nat) {
            Ok(rest) => Ok(seq![words.subrange(1, 1 + words[0])] + rest),
            Err(e) => Err(e),
        }
    }
}

/// Reads a snapshot: the process whose snapshot the words are, or why they
/// are none.
pub open spec fn decode(flat: Seq<u64>) -> Result<ProcessView, DecodeError> {
    if flat.len() < 9 {
        Err(DecodeError::Truncated)
    } else {
        let code_end = 9 + flat[5];
        let stack_end = code_end + flat[6];
        let map_end = stack_end + flat[7];
        if map_end > flat.len() {
            Err(DecodeError::Truncated)
        } else {
            match decode_areas(flat.skip(map_end), flat[8] as nat) {
                Ok(memory) => Ok(
                    ProcessView {
                        header: Header {
                            status: flat[0],
                            rec: flat[1],
                            gas: flat[2],
                            mem: flat[3],
                            ip: flat[4],
                        },
                        code: flat.subrange(9, code_end),
                        stack: flat.subrange(code_end, stack_end),
                        map: flat.subrange(stack_end, map_end),
                        memory,
                    },
                ),
                Err(e) => Err(e),
            }
        }
    }
}

/// Appending an area appends its length word and its words to the encoding.
pub proof fn lemma_encode_areas_push(memory: Seq<Seq<u64>>, area: Seq<u64>)
    ensures
        encode_areas(memory.push(area)) == encode_areas(memory) + seq![area.len() as u64] + area,
    decreases memory.len(),
{
    if memory.len() == 0 {
        assert(memory.push(area).skip(1) =~= Seq::<Seq<u64>>::empty());
        assert(encode_areas(memory.push(area).skip(1)) =~= Seq::<u64>::empty());
        assert(encode_areas(memory.push(area)) =~= encode_areas(memory) + seq![
            area.len() as u64,
        ] + area);
    } else {
        lemma_encode_areas_push(memory.skip(1), area);
        assert(memory.push(area).skip(1) =~= memory.skip(1).push(area));
        assert(encode_areas(memory.push(area)) =~= encode_areas(memory) + seq![
            area.len() as u64,
        ] + area);
    }
}

/// Reading back the encoding of a list of areas gives the list.
pub proof fn lemma_decode_encode_areas(memory: Seq<Seq<u64>>)
    requires
        forall|i: int| 0 <= i < memory.len() ==> (#[trigger] memory[i]).len() <= u64::MAX,
    ensures
        decode_areas(encode_areas(memory), memory.len()) == Ok::<Seq<Seq<u64>>, DecodeError>(
            memory,
        ),
    decreases memory.len(),
{
    if memory.len() > 0 {
        let words = encode_areas(memory);
        let rest = memory.skip(1);
        assert forall|i: int| 0 <= i < rest.len() implies (#[trigger] rest[i]).len()
            <= u64::MAX by {
            assert(rest[i] == memory[i + 1]);
        }
        lemma_decode_encode_areas(rest);
        assert(words[0] == memory[0].len());
        assert(words.skip(1 + words[0]) =~= encode_areas(rest));
        assert(words.subrange(1, 1 + words[0]) =~= memory[0]);
        assert(seq![memory[0]] + rest =~= memory);
        assert(rest.len() == (memory.len() - 1) as nat);
        assert(decode_areas(words.skip(1 + words[0]), (memory.len() - 1) as nat) == Ok::<
            Seq<Seq<u64>>,
            DecodeError,
        >(rest));
    } else {
        assert(memory =~= Seq::<Seq<u64>>::empty());
    }
}

/// A list of areas that was read from words encodes to those words.
pub proof fn lemma_encode_decode_areas(words: Seq<u64>, count: nat, memory: Seq<Seq<u64>>)
    requires
        decode_areas(words, count) == Ok::<Seq<Seq<u64>>, DecodeError>(memory),
    ensures
        encode_areas(memory) == words,
        memory.len() == count,
        forall|i: int| 0 <= i < memory.len() ==> (#[trigger] memory[i]).len() <= u64::MAX,
    decreases count,
{
    if count == 0 {
        assert(words =~= Seq::<u64>::empty());
    } else {
        let tail = words.skip(1 + words[0]);
        let rest = decode_areas(tail, (count - 1) as nat)->Ok_0;
        lemma_encode_decode_areas(tail, (count - 1) as nat, rest);
        let first = words.subrange(1, 1 + words[0]);
        assert(memory == seq![first] + rest);
        assert(memory.skip(1) =~= rest);
        assert(memory[0] == first);
        assert(encode_areas(memory) =~= words);
        assert forall|i: int| 0 <= i < memory.len() implies (#[trigger] memory[i]).len()
            <= u64::MAX by {
            if i > 0 {
                assert(memory[i] == rest[i - 1]);
            }
        }
    }
}

/// Round trip: decoding the snapshot of a process gives the process back.
pub proof fn lemma_decode_encode(p: ProcessView)
    requires
        representable(p),
    ensures
        decode(encode(p)) == Ok::<ProcessView, DecodeError>(p),
{
    let flat = encode(p);
    let code_end: int = 9 + p.code.len() as int;
    let stack_end: int = code_end + p.stack.len();
    let map_end: int = stack_end + p.map.len();
    lemma_decode_encode_areas(p.memory);
    assert(flat.skip(map_end) =~= encode_areas(p.memory));
    assert(flat.subrange(9, code_end) =~= p.code);
    assert(flat.subrange(code_end, stack_end) =~= p.stack);
    assert(flat.subrange(stack_end, map_end) =~= p.map);
}

/// Decoding is exact: the words that decode to a process are its snapshot,
/// so no two snapshots decode to the same process.
pub proof fn lemma_encode_decode(flat: Seq<u64>, p: ProcessView)
    requires
        decode(flat) == Ok::<ProcessView, DecodeError>(p),
    ensures
        encode(p) == flat,
        representable(p),
{
    let code_end = 9 + flat[5];
    let stack_end = code_end + flat[6];
    let map_end = stack_end + flat[7];
    lemma_encode_decode_areas(flat.skip(map_end), flat[8] as nat, p.memory);
    assert(encode(p) =~= flat);
}

/// Copies the words `start..end` of `flat` into a buffer of their own.
fn copy_range(flat: &Vec<u64>, start: usize, end: usize) -> (out: Vec<u64>)
    requires
        start <= end <= flat.len(),
    ensures
        out@ == flat@.subrange(start as int, end as int),
{
    let mut out: Vec<u64> = Vec::with_capacity(end - start);
    let mut i: usize = start;
    while i < end
        invariant
            start <= i <= end <= flat.len(),
            out@ == flat@.subrange(start as int, i as int),
        decreases end - i,
    {
        out.push(flat[i]);
        i = i + 1;
        proof {
            assert(out@ =~= flat@.subrange(start as int, i as int));
        }
    }
    out
}

/// Appends the words of `src` to `flat`.
fn append_words(flat: &mut Vec<u64>, src: &Vec<u64>)
    ensures
        final(flat)@ == old(flat)@ + src@,
{
    let mut i: usize = 0;
    while i < src.len()
        invariant
            i <= src.len(),
            flat@ == old(flat)@ + src@.subrange(0, i as int),
        decreases src.len() - i,
    {
        flat.push(src[i]);
        i = i + 1;
        proof {
            assert(flat@ =~= old(flat)@ + src@.subrange(0, i as int));
        }
    }
    proof {
        assert(src@.subrange(0, i as int) =~= src@);
    }
}

/// The contents of the areas of a process in memory fit their length words.
pub proof fn lemma_representable(p: &Process)
    ensures
        representable(p@),
{
    assert(p.code.len() <= usize::MAX);
    assert(p.stack.len() <= usize::MAX);
    assert(p.map.len() <= usize::MAX);
    assert(p.memory.len() <= usize::MAX);
    assert forall|i: int| 0 <= i < p@.memory.len() implies (#[trigger] p@.memory[i]).len()
        <= u64::MAX by {
        assert(p@.memory[i] == p.memory@[i]@);
        assert(p.memory@[i].len() <= usize::MAX);
    }
}

/// Serializes a process to its snapshot.
pub fn s(sharp: &Process) -> (flat: Vec<u64>)
    ensures
        flat@ == encode(sharp@),
        decode(flat@) == Ok::<ProcessView, DecodeError>(sharp@),
{
    let mut flat: Vec<u64> = Vec::new();
    flat.push(sharp.header.status);
    flat.push(sharp.header.rec);
    flat.push(sharp.header.gas);
    flat.push(sharp.header.mem);
    flat.push(sharp.header.ip);

    flat.push(sharp.code.len() as u64);
    flat.push(sharp.stack.len() as u64);
    flat.push(sharp.map.len() as u64);
    flat.push(sharp.memory.len() as u64);

    append_words(&mut flat, &sharp.code);
    append_words(&mut flat, &sharp.stack);
    append_words(&mut flat, &sharp.map);

    let ghost fixed = flat@;
    let ghost areas = sharp@.memory;
    let mut i: usize = 0;
    proof {
        assert(areas.take(0) =~= Seq::<Seq<u64>>::empty());
        assert(flat@ =~= fixed + encode_areas(areas.take(0)));
    }
    while i < sharp.memory.len()
        invariant
            i <= sharp.memory.len(),
            areas == sharp@.memory,
            areas.len() == sharp.memory.len(),
            flat@ == fixed + encode_areas(areas.take(i as int)),
        decreases sharp.memory.len() - i,
    {
        let area = &sharp.memory[i];
        flat.push(area.len() as u64);
        append_words(&mut flat, area);
        proof {
            assert(areas[i as int] == area@);
            lemma_encode_areas_push(areas.take(i as int), area@);
            assert(areas.take(i as int).push(area@) =~= areas.take(i + 1));
            assert(flat@ =~= fixed + encode_areas(areas.take(i + 1)));
        }
        i = i + 1;
    }
    proof {
        assert(areas.take(i as int) =~= areas);
        assert(flat@ =~= encode(sharp@));
        lemma_representable(sharp);
        lemma_decode_encode(sharp@);
    }
    flat
}

/// The result of reading areas, with the areas read before them in front.
pub open spec fn after_areas(
    before: Seq<Seq<u64>>,
    rest: Result<Seq<Seq<u64>>, DecodeError>,
) -> Result<Seq<Seq<u64>>, DecodeError> {
    match rest {
        Ok(areas) => Ok(before + areas),
        Err(e) => Err(e),
    }
}

/// Deserializes a snapshot. The words must be exactly the snapshot of a
/// process; the error says whether they end too early or go on too long.
#[verifier::loop_isolation(false)]
pub fn d(flat: &Vec<u64>) -> (r: Result<Process, DecodeError>)
    ensures
        match r {
            Ok(p) => decode(flat@) == Ok::<ProcessView, DecodeError>(p@) && encode(p@) == flat@,
            Err(e) => decode(flat@) == Err::<ProcessView, DecodeError>(e),
        },
{
    let total: usize = flat.len();
    if total < PREFIX_LEN {
        return Err(DecodeError::Truncated);
    }
    let header = Header {
        status: flat[0],
        rec: flat[1],
        gas: flat[2],
        mem: flat[3],
        ip: flat[4],
    };
    let codelen: u64 = flat[5];
    let stacklen: u64 = flat[6];
    let maplen: u64 = flat[7];
    let memorylen: u64 = flat[8];

    let start: usize = PREFIX_LEN;
    if codelen > (total - start) as u64 {
        return Err(DecodeError::Truncated);
    }
    let code_end: usize = start + codelen as usize;
    if stacklen > (total - code_end) as u64 {
        return Err(DecodeError::Truncated);
    }
    let stack_end: usize = code_end + stacklen as usize;
    if maplen > (total - stack_end) as u64 {
        return Err(DecodeError::Truncated);
    }
    let map_end: usize = stack_end + maplen as usize;

    let code = copy_range(flat, start, code_end);
    let mut stack = copy_range(flat, code_end, stack_end);
    stack.reserve(1024);
    let mut map = copy_range(flat, stack_end, map_end);
    map.reserve(1024);

    let ghost tail = flat@.skip(map_end as int);
    let mut memory: Vec<Vec<u64>> = Vec::new();
    let mut end: usize = map_end;
    let mut count: u64 = 0;
    proof {
        assert(areas_view(memory@) =~= Seq::<Seq<u64>>::empty());
        assert(Seq::<Seq<u64>>::empty() + decode_areas(tail, memorylen as nat)->Ok_0
            =~= decode_areas(tail, memorylen as nat)->Ok_0);
    }
    while count < memorylen
        invariant
            total == flat.len(),
            map_end <= end <= total,
            count <= memorylen,
            tail == flat@.skip(map_end as int),
            decode_areas(tail, memorylen as nat) == after_areas(
                areas_view(memory@),
                decode_areas(flat@.skip(end as int), (memorylen - count) as nat),
            ),
        decreases memorylen - count,
    {
        let ghost words = flat@.skip(end as int);
        if end >= total {
            return Err(DecodeError::Truncated);
        }
        let arealen: u64 = flat[end];
        if arealen > (total - end - 1) as u64 {
            return Err(DecodeError::Truncated);
        }
        let area_start: usize = end + 1;
        let area_end: usize = area_start + arealen as usize;
        let mut areavec = copy_range(flat, area_start, area_end);
        areavec.reserve(4096);
        proof {
            assert(words[0] == arealen);
            assert(words.skip(1 + words[0]) =~= flat@.skip(area_end as int));
            assert(words.subrange(1, 1 + words[0]) =~= areavec@);
            let before = areas_view(memory@);
            let next = decode_areas(
                flat@.skip(area_end as int),
                (memorylen - count - 1) as nat,
            );
            assert(areas_view(memory@.push(areavec)) =~= before.push(areavec@));
            if next is Ok {
                assert(before + (seq![areavec@] + next->Ok_0) =~= before.push(areavec@)
                    + next->Ok_0);
            }
        }
        memory.push(areavec);
        end = area_end;
        count = count + 1;
    }
    if end < total {
        return Err(DecodeError::Trailing);
    }
    let p = Process { header, code, stack, map, memory };
    proof {
        assert(flat@.skip(end as int).len() == 0);
        assert(areas_view(memory@) + Seq::<Seq<u64>>::empty() =~= areas_view(memory@));
        lemma_encode_decode(flat@, p@);
    }
    Ok(p)
}

impl Clone for Process {
    /// A copy with the same header and the same words everywhere.
    fn clone(&self) -> (r: Self)
        ensures
            r@ == self@,
    {
        let mut memory: Vec<Vec<u64>> = Vec::with_capacity(self.memory.len());
        let mut i: usize = 0;
        while i < self.memory.len()
            invariant
                i <= self.memory.len(),
                areas_view(memory@) == areas_view(self.memory@).take(i as int),
            decreases self.memory.len() - i,
        {
            let area = copy_range(&self.memory[i], 0, self.memory[i].len());
            proof {
                assert(area@ =~= self.memory@[i as int]@);
                let before = areas_view(memory@);
                let after = areas_view(memory@.push(area));
                let want = areas_view(self.memory@).take(i + 1);
                assert(before.len() == i);
                assert forall|j: int| 0 <= j < after.len() implies after[j] == want[j] by {
                    if j < i {
                        assert(after[j] == before[j]);
                        assert(before[j] == areas_view(self.memory@).take(i as int)[j]);
                    }
                }
                assert(after =~= want);
            }
            memory.push(area);
            i = i + 1;
        }
        let code = copy_range(&self.code, 0, self.code.len());
        let stack = copy_range(&self.stack, 0, self.stack.len());
        let map = copy_range(&self.map, 0, self.map.len());
        proof {
            assert(areas_view(self.memory@).take(i as int) =~= areas_view(self.memory@));
            assert(code@ =~= self.code@);
            assert(stack@ =~= self.stack@);
            assert(map@ =~= self.map@);
        }
        Process { header: self.header, code, stack, map, memory }
    }
}

/// The header words of a snapshot are read as they stand and shape nothing
/// else: a snapshot still decodes after its status, gas and memory words
/// were overwritten, to the same process with those three values.
pub proof fn lemma_decode_header(flat: Seq<u64>, status: u64, gas: u64, mem: u64)
    requires
        decode(flat) is Ok,
    ensures
        decode(flat.update(0, status).update(2, gas).update(3, mem)) == Ok::<
            ProcessView,
            DecodeError,
        >(
            ProcessView {
                header: Header { status, gas, mem, ..decode(flat)->Ok_0.header },
                ..decode(flat)->Ok_0
            },
        ),
{
    let patched = flat.update(0, status).update(2, gas).update(3, mem);
    let code_end = 9 + flat[5];
    let stack_end = code_end + flat[6];
    let map_end = stack_end + flat[7];
    assert(patched.skip(map_end) =~= flat.skip(map_end));
    assert(patched.subrange(9, code_end) =~= flat.subrange(9, code_end));
    assert(patched.subrange(code_end, stack_end) =~= flat.subrange(code_end, stack_end));
    assert(patched.subrange(stack_end, map_end) =~= flat.subrange(stack_end, map_end));
}

} // verus!
