//! The I/O engines that `fio` can be asked to use.

use vstd::prelude::*;
use vstd::string::StringSliceAdditionalSpecFns;

verus! {

/// An I/O engine of `fio`.
#[derive(Debug, Clone, Copy, PartialEq, Eq, Hash, Structural)]
pub enum IoEngine {
    IoUring,
    Psync,
    LibAio,
    PosixAio,
}

impl IoEngine {
    /// The name by which `fio` knows the engine, in bytes.
    pub open spec fn name_bytes(self) -> Seq<u8> {
        match self {
            // io_uring
            IoEngine::IoUring => seq![105u8, 111u8, 95u8, 117u8, 114u8, 105u8, 110u8, 103u8],
            // psync
            IoEngine::Psync => seq![112u8, 115u8, 121u8, 110u8, 99u8],
            // libaio
            IoEngine::LibAio => seq![108u8, 105u8, 98u8, 97u8, 105u8, 111u8],
            // posixaio
            IoEngine::PosixAio => seq![112u8, 111u8, 115u8, 105u8, 120u8, 97u8, 105u8, 111u8],
        }
    }

    /// The name by which `fio` knows the engine.
    pub open spec fn spec_name(self) -> Seq<char> {
        match self {
            IoEngine::IoUring => "io_uring"@,
            IoEngine::Psync => "psync"@,
            IoEngine::LibAio => "libaio"@,
            IoEngine::PosixAio => "posixaio"@,
        }
    }

    /// Whether the engine submits requests without waiting for them.
    pub fn asynchronous(&self) -> (asynchronous: bool)
        ensures
            asynchronous <==> *self != IoEngine::PosixAio,
    {
        match self {
            IoEngine::IoUring => true,
            IoEngine::Psync => true,
            IoEngine::LibAio => true,
            IoEngine::PosixAio => false,
        }
    }

    /// The name by which `fio` knows the engine.
    pub fn name(&self) -> (name: &'static str)
        ensures
            name@ == self.spec_name(),
    {
        match self {
            IoEngine::IoUring => "io_uring",
            IoEngine::Psync => "psync",
            IoEngine::LibAio => "libaio",
            IoEngine::PosixAio => "posixaio",
        }
    }

    /// The name by which `fio` knows the engine, as an owned string.
    pub fn to_string(&self) -> (name: String)
        ensures
            name@ == self.spec_name(),
    {
        self.name().to_owned()
    }

    /// Whether the bytes are exactly the name of the engine.
    fn named_by(&self, bytes: &[u8]) -> (named: bool)
        ensures
            named <==> bytes@ == self.name_bytes(),
    {
        let name: [u8; 8] = match self {
            IoEngine::IoUring => [105, 111, 95, 117, 114, 105, 110, 103],
            IoEngine::Psync => [112, 115, 121, 110, 99, 0, 0, 0],
            IoEngine::LibAio => [108, 105, 98, 97, 105, 111, 0, 0],
            IoEngine::PosixAio => [112, 111, 115, 105, 120, 97, 105, 111],
        };
        let len: usize = match self {
            IoEngine::IoUring => 8,
            IoEngine::Psync => 5,
            IoEngine::LibAio => 6,
            IoEngine::PosixAio => 8,
        };
        assert(self.name_bytes().len() == len);
        assert(forall|k: int| 0 <= k < len ==> name@[k] == self.name_bytes()[k]);
        if bytes.len() != len {
            return false;
        }
        let mut i: usize = 0;
        while i < len
            invariant
                0 <= i <= len <= 8,
                bytes@.len() == len,
                self.name_bytes().len() == len,
                forall|k: int| 0 <= k < len ==> name@[k] == self.name_bytes()[k],
                forall|k: int| 0 <= k < i ==> bytes@[k] == self.name_bytes()[k],
            decreases len - i,
        {
            if bytes[i] != name[i] {
                return false;
            }
            i += 1;
        }
        assert(bytes@ =~= self.name_bytes());
        true
    }

    /// The engine that the bytes name, if they name one.
    pub fn from_bytes(bytes: &[u8]) -> (engine: Option<Self>)
        ensures
            match engine {
                Some(engine) => bytes@ == engine.name_bytes(),
                None => forall|engine: IoEngine| bytes@ != engine.name_bytes(),
            },
    {
        if IoEngine::IoUring.named_by(bytes) {
            Some(IoEngine::IoUring)
        } else if IoEngine::Psync.named_by(bytes) {
            Some(IoEngine::Psync)
        } else if IoEngine::LibAio.named_by(bytes) {
            Some(IoEngine::LibAio)
        } else if IoEngine::PosixAio.named_by(bytes) {
            Some(IoEngine::PosixAio)
        } else {
            None
        }
    }
}

impl std::str::FromStr for IoEngine {
    type Err = String;

    /// The engine that the string names, or the string itself if it names none.
    fn from_str(s: &str) -> (parsed: Result<Self, String>)
        ensures
            match parsed {
                Ok(engine) => s.spec_bytes() == engine.name_bytes(),
                Err(other) => other@ == s@
                    && forall|engine: IoEngine| s.spec_bytes() != engine.name_bytes(),
            },
    {
        match IoEngine::from_bytes(s.as_bytes()) {
            Some(engine) => Ok(engine),
            None => Err(s.to_owned()),
        }
    }
}

/// The byte is a space as ASCII knows it: a blank, a tab, a line feed, a vertical tab, a
/// form feed or a carriage return.
pub open spec fn is_space(byte: u8) -> bool {
    byte == 32 || 9 <= byte <= 13
}

/// The three bytes are a character of white space that UTF-8 writes in three bytes: U+1680,
/// U+2000 to U+200A, U+2028, U+2029, U+202F, U+205F or U+3000.
pub open spec fn is_wide_space(first: u8, second: u8, third: u8) -> bool {
    ||| first == 0xE1 && second == 0x9A && third == 0x80
    ||| first == 0xE2 && second == 0x80 && (0x80 <= third <= 0x8A || third == 0xA8 || third == 0xA9
        || third == 0xAF)
    ||| first == 0xE2 && second == 0x81 && third == 0x9F
    ||| first == 0xE3 && second == 0x80 && third == 0x80
}

/// The number of bytes of the character of white space that starts at `at` and ends by
/// `to`, and 0 if there is none. White space is what Unicode calls so: the spaces of ASCII,
/// U+0085, U+00A0, and the characters of [`is_wide_space`].
pub open spec fn space_from(text: Seq<u8>, at: int, to: int) -> int {
    if at < to && is_space(text[at]) {
        1
    } else if at + 2 <= to && text[at] == 0xC2 && (text[at + 1] == 0x85 || text[at + 1] == 0xA0) {
        2
    } else if at + 3 <= to && is_wide_space(text[at], text[at + 1], text[at + 2]) {
        3
    } else {
        0
    }
}

/// The number of bytes of the character of white space that ends at `to` and starts at
/// `from` or later, and 0 if there is none.
pub open spec fn space_to(text: Seq<u8>, from: int, to: int) -> int {
    if from < to && is_space(text[to - 1]) {
        1
    } else if from + 2 <= to && text[to - 2] == 0xC2 && (text[to - 1] == 0x85 || text[to - 1] == 0xA0) {
        2
    } else if from + 3 <= to && is_wide_space(text[to - 3], text[to - 2], text[to - 1]) {
        3
    } else {
        0
    }
}

/// Where the line that starts at `from` ends: at the next line feed, or at the end of the text.
pub open spec fn line_end(text: Seq<u8>, from: int) -> int
    decreases text.len() - from,
{
    if from < 0 || from >= text.len() || text[from] == 10 {
        from
    } else {
        line_end(text, from + 1)
    }
}

/// The position from `from` on at which the white space at the front of a stretch of text
/// ends.
pub open spec fn skip_spaces(text: Seq<u8>, from: int, to: int) -> int
    decreases to - from,
{
    if space_from(text, from, to) > 0 {
        skip_spaces(text, from + space_from(text, from, to), to)
    } else {
        from
    }
}

/// The position down from `to` at which the white space at the back of a stretch of text
/// starts.
pub open spec fn drop_spaces(text: Seq<u8>, from: int, to: int) -> int
    decreases to - from,
{
    if space_to(text, from, to) > 0 {
        drop_spaces(text, from, to - space_to(text, from, to))
    } else {
        to
    }
}

/// The stretch of text from `from` to `to` without the spaces at its front and at its back.
pub open spec fn trimmed(text: Seq<u8>, from: int, to: int) -> Seq<u8> {
    text.subrange(
        skip_spaces(text, from, to),
        drop_spaces(text, skip_spaces(text, from, to), to),
    )
}

/// The engine is named on the line that starts at `start`, and that line is not the first.
pub open spec fn named_at(text: Seq<u8>, engine: IoEngine, start: int) -> bool {
    &&& 0 < start <= text.len()
    &&& text[start - 1] == 10
    &&& trimmed(text, start, line_end(text, start)) == engine.name_bytes()
}

/// The engine is named on a line of the text after the first, with nothing but white space
/// around the name.
pub open spec fn listed(text: Seq<u8>, engine: IoEngine) -> bool {
    exists|start: int| named_at(text, engine, start)
}

/// The first engine is named on a line before every line that names the second.
pub open spec fn named_before(text: Seq<u8>, first: IoEngine, second: IoEngine) -> bool {
    exists|start: int|
        #[trigger] named_at(text, first, start) && forall|other: int|
            #[trigger] named_at(text, second, other) ==> start < other
}

/// A line ends within the text, and holds no line feed.
proof fn lemma_line_end(text: Seq<u8>, from: int)
    requires
        0 <= from <= text.len(),
    ensures
        from <= line_end(text, from) <= text.len(),
        line_end(text, from) < text.len() ==> text[line_end(text, from)] == 10,
        forall|k: int| from <= k < line_end(text, from) ==> text[k] != 10,
    decreases text.len() - from,
{
    if from < text.len() && text[from] != 10 {
        lemma_line_end(text, from + 1);
    }
}

/// The I/O engines that an installation of `fio` offers.
#[derive(Debug)]
pub struct Fio {
    io_engines: Vec<IoEngine>,
}

impl Fio {
    /// The engines that the installation offers, each once.
    pub closed spec fn engines(&self) -> Seq<IoEngine> {
        self.io_engines@
    }

    /// Reads what `fio --enghelp` printed: a heading, and then one engine on each line. The
    /// engines that are known are kept, each once, in the order in which they are first
    /// named; what else the lines hold is passed over. Around a name any white space is
    /// passed over.
    pub fn from_enghelp(output: &[u8]) -> (fio: Self)
        ensures
            fio.engines().no_duplicates(),
            forall|engine: IoEngine| fio.engines().contains(engine) <==> listed(output@, engine),
            forall|i: int, j: int|
                0 <= i < j < fio.engines().len() ==> named_before(
                    output@,
                    #[trigger] fio.engines()[i],
                    #[trigger] fio.engines()[j],
                ),
    {
        let mut found: Vec<IoEngine> = Vec::new();
        let len = output.len();
        // The heading.
        let mut start: usize = 0;
        while start < len && output[start] != 10
            invariant
                0 <= start <= len == output@.len(),
                line_end(output@, start as int) == line_end(output@, 0),
            decreases len - start,
        {
            start += 1;
        }
        proof {
            lemma_line_end(output@, 0);
        }
        if start == len {
            proof {
                assert forall|engine: IoEngine| !listed(output@, engine) by {
                    if listed(output@, engine) {
                        let at = choose|at: int| named_at(output@, engine, at);
                        assert(output@[at - 1] != 10);
                    }
                }
            }
            return Self { io_engines: found };
        }
        start += 1;
        loop
            invariant_except_break
                forall|engine: IoEngine|
                    found@.contains(engine) <==> exists|at: int| at < start
                        && named_at(output@, engine, at),
            invariant
                0 < start <= len == output@.len(),
                output@[start - 1] == 10,
                found@.no_duplicates(),
                forall|i: int, j: int|
                    0 <= i < j < found@.len() ==> named_before(
                        output@,
                        #[trigger] found@[i],
                        #[trigger] found@[j],
                    ),
            ensures
                found@.no_duplicates(),
                forall|engine: IoEngine| found@.contains(engine) <==> listed(output@, engine),
            decreases len - start,
        {
            let ghost before = found@;
            let mut end = start;
            while end < len && output[end] != 10
                invariant
                    start <= end <= len == output@.len(),
                    line_end(output@, end as int) == line_end(output@, start as int),
                decreases len - end,
            {
                end += 1;
            }
            proof {
                lemma_line_end(output@, start as int);
            }
            let mut lo = start;
            loop
                invariant
                    start <= lo <= end <= len == output@.len(),
                    skip_spaces(output@, lo as int, end as int) == skip_spaces(
                        output@,
                        start as int,
                        end as int,
                    ),
                ensures
                    start <= lo <= end,
                    lo == skip_spaces(output@, start as int, end as int),
                decreases end - lo,
            {
                let space = Self::space_front(output, lo, end);
                if space == 0 {
                    break ;
                }
                lo += space;
            }
            let mut hi = end;
            loop
                invariant
                    lo <= hi <= end <= len == output@.len(),
                    drop_spaces(output@, lo as int, hi as int) == drop_spaces(
                        output@,
                        lo as int,
                        end as int,
                    ),
                ensures
                    lo <= hi <= end,
                    hi == drop_spaces(output@, lo as int, end as int),
                decreases hi - lo,
            {
                let space = Self::space_back(output, lo, hi);
                if space == 0 {
                    break ;
                }
                hi -= space;
            }
            let name = vstd::slice::slice_subrange(output, lo, hi);
            assert(name@ == trimmed(output@, start as int, end as int));
            let parsed = IoEngine::from_bytes(name);
            if let Some(engine) = parsed {
                if !Self::holds(&found, engine) {
                    found.push(engine);
                    proof {
                        assert(named_at(output@, engine, start as int));
                        assert forall|i: int, j: int| 0 <= i < j < found@.len() implies named_before(
                            output@,
                            #[trigger] found@[i],
                            #[trigger] found@[j],
                        ) by {
                            if j < before.len() {
                                assert(found@[i] == before[i] && found@[j] == before[j]);
                            } else {
                                assert(found@[i] == before[i]);
                                assert(before.contains(before[i]));
                                let at = choose|at: int| at < start && named_at(output@, before[i], at);
                                assert forall|other: int| #[trigger]
                                    named_at(output@, engine, other) implies at < other by {
                                    if other < start {
                                        assert(before.contains(engine));
                                    }
                                }
                            }
                        }
                        assert(found@[before.len() as int] == engine);
                        assert forall|other: IoEngine| found@.contains(other) implies
                            other == engine
                            || before.contains(other) by {
                            let i = found@.index_of(other);
                            if i < before.len() {
                                assert(before[i] == other);
                            }
                        }
                        assert forall|other: IoEngine| before.contains(other) implies
                            found@.contains(
                            other,
                        ) by {
                            let i = before.index_of(other);
                            assert(found@[i] == other);
                        }
                    }
                }
            }
            proof {
                let next = end + 1;
                assert forall|engine: IoEngine|
                    found@.contains(engine) <==> exists|at: int|
                        at < next && named_at(output@, engine, at) by {
                    if found@.contains(engine) {
                        if before.contains(engine) {
                            let at = choose|at: int| at < start && named_at(output@, engine, at);
                            assert(at < next && named_at(output@, engine, at));
                        } else {
                            assert(parsed == Some(engine));
                            assert(named_at(output@, engine, start as int));
                        }
                    }
                    if exists|at: int| at < next && named_at(output@, engine, at) {
                        let at = choose|at: int| at < next && named_at(output@, engine, at);
                        if at < start {
                            assert(before.contains(engine));
                        } else {
                            // No line starts within a line.
                            assert(at == start) by {
                                if at > start {
                                    assert(output@[at - 1] != 10);
                                }
                            }
                            assert(name@ == engine.name_bytes());
                            assert(parsed == Some(engine)) by {
                                match parsed {
                                    Some(other) => {
                                        assert(other.name_bytes() == engine.name_bytes());
                                        assert(other.name_bytes().len()
                                            == engine.name_bytes().len());
                                        assert(other.name_bytes()[0] == engine.name_bytes()[0]);
                                        assert(other.name_bytes()[1] == engine.name_bytes()[1]);
                                    },
                                    None => {},
                                }
                            }
                        }
                    }
                }
            }
            if end == len {
                proof {
                    assert forall|engine: IoEngine| found@.contains(engine)
                        <==> listed(output@, engine) by {
                        if listed(output@, engine) {
                            let at = choose|at: int| named_at(output@, engine, at);
                            assert(at < end + 1 && named_at(output@, engine, at));
                        }
                        if found@.contains(engine) {
                            let at = choose|at: int| at < end + 1 && named_at(output@, engine, at);
                            assert(named_at(output@, engine, at));
                        }
                    }
                }
                break ;
            }
            start = end + 1;
        }
        Self { io_engines: found }
    }

    /// Whether the three bytes are a character of white space in three bytes.
    fn wide_space(first: u8, second: u8, third: u8) -> (wide: bool)
        ensures
            wide == is_wide_space(first, second, third),
    {
        (first == 0xE1 && second == 0x9A && third == 0x80) || (first == 0xE2 && second == 0x80 && ((0x80
            <= third && third <= 0x8A) || third == 0xA8 || third == 0xA9 || third == 0xAF)) || (first
            == 0xE2 && second == 0x81 && third == 0x9F) || (first == 0xE3 && second == 0x80 && third
            == 0x80)
    }

    /// The number of bytes of the character of white space that starts at `at`, if any.
    fn space_front(text: &[u8], at: usize, to: usize) -> (space: usize)
        requires
            at <= to <= text@.len(),
        ensures
            space == space_from(text@, at as int, to as int),
            space <= to - at,
            space <= 3,
    {
        if at < to && (text[at] == 32 || (9 <= text[at] && text[at] <= 13)) {
            1
        } else if to - at >= 2 && text[at] == 0xC2 && (text[at + 1] == 0x85 || text[at + 1] == 0xA0) {
            2
        } else if to - at >= 3 && Self::wide_space(text[at], text[at + 1], text[at + 2]) {
            3
        } else {
            0
        }
    }

    /// The number of bytes of the character of white space that ends at `to`, if any.
    fn space_back(text: &[u8], from: usize, to: usize) -> (space: usize)
        requires
            from <= to <= text@.len(),
        ensures
            space == space_to(text@, from as int, to as int),
            space <= to - from,
            space <= 3,
    {
        if from < to && (text[to - 1] == 32 || (9 <= text[to - 1] && text[to - 1] <= 13)) {
            1
        } else if to - from >= 2 && text[to - 2] == 0xC2 && (text[to - 1] == 0x85 || text[to - 1]
            == 0xA0) {
            2
        } else if to - from >= 3 && Self::wide_space(text[to - 3], text[to - 2], text[to - 1]) {
            3
        } else {
            0
        }
    }

    /// Whether the engine is among those found so far.
    fn holds(found: &Vec<IoEngine>, engine: IoEngine) -> (holds: bool)
        ensures
            holds <==> found@.contains(engine),
    {
        let mut i: usize = 0;
        while i < found.len()
            invariant
                0 <= i <= found@.len(),
                forall|k: int| 0 <= k < i ==> found@[k] != engine,
            decreases found@.len() - i,
        {
            if found[i] == engine {
                return true;
            }
            i += 1;
        }
        false
    }

    /// The engines that the installation offers, each once.
    pub fn io_engines(&self) -> (engines: &Vec<IoEngine>)
        ensures
            engines@ == self.engines(),
    {
        &self.io_engines
    }

    /// Whether the installation offers the engine.
    pub fn supports(&self, engine: IoEngine) -> (supported: bool)
        ensures
            supported <==> self.engines().contains(engine),
    {
        Self::holds(&self.io_engines, engine)
    }
}

} // verus!
