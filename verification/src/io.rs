//! The formatting buffer.
//!
//! A [`StringWriter`] renders text into a buffer of fixed size, without
//! allocating. Text is appended at a cursor; the bytes before the cursor
//! are what a consumer reads. Text that does not fit is never truncated:
//! appending it is outside the contract.

use vstd::prelude::*;
use vstd::string::StringSliceAdditionalSpecFns;

verus! {

/// The number of bytes a [`StringWriter`] has room for.
pub const STRING_BUFFER_SIZE: usize = 1024;

/// A buffer of `STRING_BUFFER_SIZE` bytes with a cursor.
pub struct StringWriter {
    buf: [u8; STRING_BUFFER_SIZE],
    cursor: usize,
}

impl View for StringWriter {
    type V = Seq<u8>;

    /// The bytes written since the last reset, in order.
    closed spec fn view(&self) -> Seq<u8> {
        self.buf@.subrange(0, self.cursor as int)
    }
}

impl StringWriter {
    /// The cursor lies within the buffer.
    #[verifier::type_invariant]
    spec fn cursor_in_buffer(self) -> bool {
        self.cursor <= STRING_BUFFER_SIZE
    }

    /// `len` more bytes stay within the buffer.
    pub open spec fn has_room(&self, len: nat) -> bool {
        self@.len() + len <= STRING_BUFFER_SIZE
    }

    /// A buffer that holds nothing.
    pub fn new() -> (writer: StringWriter)
        ensures
            writer@ == Seq::<u8>::empty(),
    {
        let writer = StringWriter { buf: [0u8; STRING_BUFFER_SIZE], cursor: 0 };
        assert(writer@ =~= Seq::<u8>::empty());
        writer
    }

    /// Forgets what was written.
    pub fn reset_cursor(&mut self)
        ensures
            final(self)@ == Seq::<u8>::empty(),
    {
        self.cursor = 0;
        assert(self@ =~= Seq::<u8>::empty());
    }

    /// Appends one NUL byte.
    pub fn add_terminator(&mut self)
        requires
            old(self).has_room(1),
        ensures
            final(self)@ == old(self)@.push(0u8),
    {
        proof {
            use_type_invariant(&*self);
        }
        assert(self.buf@.len() == STRING_BUFFER_SIZE);
        self.buf[self.cursor] = 0u8;
        self.cursor += 1;
        assert(self@ =~= old(self)@.push(0u8));
    }

    /// The number of bytes that can still be appended.
    pub fn remaining(&self) -> (room: usize)
        ensures
            room == STRING_BUFFER_SIZE - self@.len(),
    {
        proof {
            use_type_invariant(&*self);
        }
        assert(self.buf@.len() == STRING_BUFFER_SIZE);
        STRING_BUFFER_SIZE - self.cursor
    }

    /// Says whether `s` can be appended.
    pub fn fits(&self, s: &str) -> (r: bool)
        ensures
            r == self.has_room(s.spec_bytes().len()),
    {
        proof {
            use_type_invariant(&*self);
        }
        assert(self.buf@.len() == STRING_BUFFER_SIZE);
        s.as_bytes().len() <= STRING_BUFFER_SIZE - self.cursor
    }

    /// Appends the bytes of `s`.
    pub fn write_str(&mut self, s: &str)
        requires
            old(self).has_room(s.spec_bytes().len()),
        ensures
            final(self)@ == old(self)@ + s.spec_bytes(),
    {
        let bytes = s.as_bytes();
        let mut i: usize = 0;
        proof {
            use_type_invariant(&*self);
        }
        assert(self.buf@.len() == STRING_BUFFER_SIZE);
        assert(self.buf@.subrange(0, self.cursor as int) =~= old(self)@ + bytes@.take(0));
        while i < bytes.len()
            invariant
                self.cursor == old(self).cursor,
                self.cursor + bytes@.len() <= STRING_BUFFER_SIZE,
                self.buf@.len() == STRING_BUFFER_SIZE,
                old(self)@.len() == self.cursor,
                i <= bytes@.len(),
                self.buf@.subrange(0, self.cursor + i) == old(self)@ + bytes@.take(i as int),
            decreases bytes.len() - i,
        {
            let ghost before = self.buf@;
            self.buf[self.cursor + i] = bytes[i];
            assert(self.buf@ == before.update(self.cursor + i, bytes@[i as int]));
            assert(self.buf@.subrange(0, self.cursor + i + 1) =~= before.subrange(
                0,
                self.cursor + i,
            ).push(bytes@[i as int]));
            assert(bytes@.take(i + 1) =~= bytes@.take(i as int).push(bytes@[i as int]));
            assert(self.buf@.subrange(0, self.cursor + i + 1) =~= old(self)@ + bytes@.take(
                i + 1,
            ));
            i += 1;
        }
        self.cursor += bytes.len();
        assert(bytes@.take(bytes@.len() as int) =~= bytes@);
    }

    /// The bytes written since the last reset.
    pub fn as_bytes(&self) -> (bytes: &[u8])
        ensures
            bytes@ == self@,
    {
        proof {
            use_type_invariant(&*self);
        }
        assert(self.buf@.len() == STRING_BUFFER_SIZE);
        let all = self.buf.as_slice();
        &all[0..self.cursor]
    }

    /// After a reset, what is appended is all the buffer holds: two texts
    /// in a row read as the first followed by the second.
    pub proof fn lemma_appends_after_reset(first: Seq<u8>, second: Seq<u8>)
        ensures
            (Seq::<u8>::empty() + first) + second == first + second,
    {
        assert((Seq::<u8>::empty() + first) + second =~= first + second);
    }
}

/// How a file is opened.
#[derive(Clone, Copy, Debug, PartialEq, Eq, Structural)]
pub enum FileMode {
    Read,
    Write,
    Append,
}

/// Where a position in a file is counted from.
#[derive(Clone, Copy, Debug, PartialEq, Eq, Structural)]
pub enum FileSeek {
    Start,
    Cur,
    End,
}

impl FileMode {
    /// The mode in the host's notation: a letter for the mode, `b` for
    /// binary, and a NUL.
    pub open spec fn spec_host_mode(&self) -> Seq<u8> {
        match self {
            FileMode::Read => seq![0x72u8, 0x62u8, 0u8],
            FileMode::Write => seq![0x77u8, 0x62u8, 0u8],
            FileMode::Append => seq![0x61u8, 0x62u8, 0u8],
        }
    }

    /// The mode in the host's notation.
    pub fn host_mode(&self) -> (mode: [u8; 3])
        ensures
            mode@ == self.spec_host_mode(),
    {
        let mode: [u8; 3] = match self {
            FileMode::Read => [0x72u8, 0x62u8, 0u8],
            FileMode::Write => [0x77u8, 0x62u8, 0u8],
            FileMode::Append => [0x61u8, 0x62u8, 0u8],
        };
        assert(mode@ =~= self.spec_host_mode());
        mode
    }

    /// Says whether a file opened in this mode can be read: every mode
    /// but `Write`.
    pub fn can_read(&self) -> (r: bool)
        ensures
            r == !(self is Write),
    {
        match self {
            FileMode::Write => false,
            _ => true,
        }
    }

    /// Says whether a file opened in this mode can be written: every mode
    /// but `Read`.
    pub fn can_write(&self) -> (r: bool)
        ensures
            r == !(self is Read),
    {
        match self {
            FileMode::Read => false,
            _ => true,
        }
    }
}

/// A file of the host that is open: the handle the host knows it by, and
/// the mode it was opened in.
pub struct File {
    handle: usize,
    mode: FileMode,
}

impl File {
    /// The handle the host knows the file by.
    pub closed spec fn spec_handle(&self) -> usize {
        self.handle
    }

    /// The mode the file was opened in.
    pub closed spec fn spec_mode(&self) -> FileMode {
        self.mode
    }

    /// The file behind `handle`, the host's answer to a request to open
    /// one in `mode`, or `None` where the host answered with the null
    /// handle.
    pub fn from_handle(handle: usize, mode: FileMode) -> (r: Option<File>)
        ensures
            r is Some <==> handle != 0,
            r matches Some(file) ==> file.spec_handle() == handle && file.spec_mode() == mode,
    {
        if handle == 0 {
            None
        } else {
            Some(File { handle, mode })
        }
    }

    /// A file that is open has a handle, and the null handle is none.
    #[verifier::type_invariant]
    spec fn has_handle(self) -> bool {
        self.handle != 0
    }

    /// The handle the host knows the file by. It is never null.
    pub fn handle(&self) -> (handle: usize)
        ensures
            handle == self.spec_handle(),
            handle != 0,
    {
        proof {
            use_type_invariant(self);
        }
        self.handle
    }

    /// The mode the file was opened in.
    #[verifier::when_used_as_spec(spec_mode)]
    pub fn mode(&self) -> (mode: FileMode)
        ensures
            mode == self.spec_mode(),
    {
        self.mode
    }
}

/// What a read hands to its caller after the host has filled the first
/// `read` bytes of `buf`: those bytes, or nothing where there are none.
pub fn filled_part<'a>(buf: &'a [u8], read: usize) -> (r: Option<&'a [u8]>)
    requires
        read <= buf@.len(),
    ensures
        r is Some <==> read > 0,
        r matches Some(part) ==> part@ == buf@.take(read as int),
{
    if read == 0 {
        None
    } else {
        Some(&buf[0..read])
    }
}

} // verus!
