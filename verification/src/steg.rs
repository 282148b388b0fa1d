//! The steganography state machine: holds the loaded image, the codec
//! configuration, the cursor, and the flags the check and embed steps
//! maintain, and drives the whole embed and extract protocol.

use vstd::prelude::*;
use vstd::arithmetic::div_mod::lemma_fundamental_div_mod;
use crate::cursor::{Cursor, lemma_pos_bounds};
use crate::surface::ImageSurface;
use crate::settings::Settings;
use crate::bitio::{read_stream, write_stream};
use crate::format::{
    dec_str, pow10, pw_stream, entry_stream, entries_stream, container_stream, wf_entries,
    lemma_entries_stream_push, encode_dec, decode_dec, parse_entry, parse_entries, parse_payload,
    is_dec, dec_val,
};
use crate::sha::{sha256, sha256_of};
use crate::StegError;

verus! {

/// One file to embed or one file recovered: its name and its raw bytes.
#[derive(Debug)]
pub struct FileEntry {
    pub name: Vec<u8>,
    pub content: Vec<u8>,
}

/// The files as the sequence of pairs the stream layout speaks of.
pub open spec fn entries_view(files: Seq<FileEntry>) -> Seq<(Seq<u8>, Seq<u8>)> {
    Seq::new(files.len(), |i: int| (files[i].name@, files[i].content@))
}

/// Embed and extract state: configuration, the image under work, the
/// cursor, and the flags the check steps set.
pub struct Steganography {
    pub settings: Settings,
    pub img_to_proc: bool,
    pub image: Option<ImageSurface>,
    pub pic_coded: bool,
    pub user_permit: bool,
    pub pic_has_pw: bool,
    pub pic_width: u32,
    pub pic_height: u32,
    pub pic_col_planes: u8,
    pub cursor: Cursor,
    pub bytes_read: u64,
    pub code_bytes: Vec<u8>,
    pub embed_capacity: u64,
}

impl Steganography {
    /// The loaded image, where there is one.
    pub open spec fn surf(self) -> ImageSurface {
        self.image->Some_0
    }

    /// The cursor's byte offset into the bitstream.
    pub open spec fn offset(self) -> int {
        self.cursor.pos(
            self.surf().width as int,
            self.surf().height as int,
            self.surf().channels as int,
        ) / 8
    }

    /// The state invariant: the configuration is usable and, when an
    /// image is loaded, the cached dimensions match it, the capacity is
    /// its capacity, and the cursor addresses a whole byte inside it.
    pub open spec fn wf(self) -> bool {
        &&& self.settings.wf()
        &&& (self.img_to_proc <==> self.image is Some)
        &&& match self.image {
            Option::Some(img) => {
                &&& img.wf()
                &&& img.width == self.pic_width
                &&& img.height == self.pic_height
                &&& img.channels == self.pic_col_planes
                &&& self.cursor.wf(img.width as int, img.height as int, img.channels as int)
                &&& self.cursor.pos(
                    img.width as int,
                    img.height as int,
                    img.channels as int,
                ) % 8 == 0
                &&& self.embed_capacity == self.settings.capacity_of(img.stream_len())
            },
            Option::None => true,
        }
    }

    /// Everything except the image, the cursor and the read buffer
    /// agrees between two states.
    pub open spec fn same_flags(self, other: Steganography) -> bool {
        &&& self.settings == other.settings
        &&& self.img_to_proc == other.img_to_proc
        &&& self.pic_coded == other.pic_coded
        &&& self.pic_has_pw == other.pic_has_pw
        &&& self.user_permit == other.user_permit
        &&& self.pic_width == other.pic_width
        &&& self.pic_height == other.pic_height
        &&& self.pic_col_planes == other.pic_col_planes
        &&& self.embed_capacity == other.embed_capacity
    }

    /// Start with a configuration and no image.
    pub fn init(settings: Settings) -> (s: Steganography)
        requires
            settings.wf(),
        ensures
            s.wf(),
            s.settings == settings,
            s.image is None,
            !s.img_to_proc,
            !s.pic_coded,
            !s.pic_has_pw,
            !s.user_permit,
            s.pic_width == 0,
            s.pic_height == 0,
            s.pic_col_planes == 0,
            s.cursor.row == 0 && s.cursor.col == 0 && s.cursor.plane == 0 && s.cursor.bit == 0,
            s.bytes_read == 0,
            s.code_bytes@.len() == 0,
            s.embed_capacity == 0,
    {
        Steganography {
            settings,
            img_to_proc: false,
            image: None,
            pic_coded: false,
            user_permit: false,
            pic_has_pw: false,
            pic_width: 0,
            pic_height: 0,
            pic_col_planes: 0,
            cursor: Cursor::origin(),
            bytes_read: 0,
            code_bytes: Vec::new(),
            embed_capacity: 0,
        }
    }

    /// Forget the loaded image and everything derived from it.
    pub fn init_image_params(&mut self)
        requires
            old(self).wf(),
        ensures
            final(self).wf(),
            final(self).settings == old(self).settings,
            final(self).image is None,
            !final(self).img_to_proc,
            !final(self).pic_coded,
            !final(self).pic_has_pw,
            !final(self).user_permit,
            final(self).pic_width == 0,
            final(self).pic_height == 0,
            final(self).pic_col_planes == 0,
            final(self).embed_capacity == 0,
            final(self).cursor == old(self).cursor,
            final(self).bytes_read == old(self).bytes_read,
            final(self).code_bytes == old(self).code_bytes,
    {
        self.image = None;
        self.img_to_proc = false;
        self.pic_coded = false;
        self.user_permit = false;
        self.pic_has_pw = false;
        self.pic_width = 0;
        self.pic_height = 0;
        self.pic_col_planes = 0;
        self.embed_capacity = 0;
    }

    /// Rewind the cursor to the start of the stream and clear the read
    /// state.
    pub fn init_embed_params(&mut self)
        requires
            old(self).wf(),
        ensures
            final(self).wf(),
            final(self).same_flags(*old(self)),
            final(self).image == old(self).image,
            final(self).cursor.row == 0,
            final(self).cursor.col == 0,
            final(self).cursor.plane == 0,
            final(self).cursor.bit == 0,
            final(self).bytes_read == 0,
            final(self).code_bytes@.len() == 0,
            old(self).image is Some ==> final(self).offset() == 0,
    {
        self.cursor = Cursor::origin();
        self.bytes_read = 0;
        self.code_bytes = Vec::new();
        proof {
            if self.image is Some {
                let img = self.image->Some_0;
                let w = img.width as int;
                let h = img.height as int;
                let ch = img.channels as int;
                assert(self.cursor.pos(w, h, ch) == 0) by (nonlinear_arith)
                    requires
                        self.cursor.row == 0,
                        self.cursor.col == 0,
                        self.cursor.plane == 0,
                        self.cursor.bit == 0,
                ;
            }
        }
    }

    /// Write `bytes` into the image at the cursor, whole or not at all:
    /// returns how many bytes were written, which is all of them when
    /// they fit the remaining stream and none otherwise.
    pub fn write_data_to_image(&mut self, bytes: &[u8]) -> (count: u64)
        requires
            old(self).wf(),
            old(self).image is Some,
        ensures
            final(self).wf(),
            final(self).same_flags(*old(self)),
            final(self).image is Some,
            final(self).surf().same_shape(old(self).surf()),
            final(self).surf().stream_len() == old(self).surf().stream_len(),
            final(self).bytes_read == old(self).bytes_read,
            final(self).code_bytes == old(self).code_bytes,
            old(self).offset() + bytes@.len() <= old(self).surf().stream_len() ==> {
                &&& count == bytes@.len()
                &&& final(self).offset() == old(self).offset() + bytes@.len()
                &&& (forall|m: int|
                    0 <= m < bytes@.len() ==> final(self).surf().stream_byte(
                        old(self).offset() + m,
                    ) == bytes@[m])
                &&& (forall|m: int|
                    0 <= m < old(self).surf().stream_len() && !(old(self).offset() <= m < old(
                        self,
                    ).offset() + bytes@.len()) ==> final(self).surf().stream_byte(m) == old(
                        self,
                    ).surf().stream_byte(m))
            },
            old(self).offset() + bytes@.len() > old(self).surf().stream_len() ==> (count == 0
                && *final(self) == *old(self)),
    {
        let ghost w = self.surf().width as int;
        let ghost h = self.surf().height as int;
        let ghost ch = self.surf().channels as int;
        let p: u128 = self.cursor.position(self.pic_width, self.pic_height, self.pic_col_planes);
        proof {
            lemma_pos_bounds(self.cursor, w, h, ch);
            lemma_fundamental_div_mod(p as int, 8);
        }
        let off: usize = (p / 8) as usize;
        let n: usize = bytes.len();
        let total: usize = match &self.image {
            Some(img) => img.data.len(),
            None => 0,
        };
        if n > total - off {
            return 0;
        }
        match &mut self.image {
            Some(img) => {
                write_stream(img, &mut self.cursor, bytes);
            },
            None => {},
        }
        n as u64
    }

    /// Read `n` bytes from the image at the cursor into `code_bytes`,
    /// whole or not at all: `bytes_read` reports how many, which is `n`
    /// when they fit the remaining stream and zero otherwise.
    pub fn read_data_from_image(&mut self, n: u64)
        requires
            old(self).wf(),
            old(self).image is Some,
        ensures
            final(self).wf(),
            final(self).same_flags(*old(self)),
            final(self).image == old(self).image,
            old(self).offset() + n <= old(self).surf().stream_len() ==> {
                &&& final(self).bytes_read == n
                &&& final(self).code_bytes@ == old(self).surf().stream_seq(
                    old(self).offset(),
                    n as int,
                )
                &&& final(self).offset() == old(self).offset() + n
            },
            old(self).offset() + n > old(self).surf().stream_len() ==> (final(self).bytes_read
                == 0 && final(self).code_bytes@.len() == 0 && final(self).cursor == old(
                self,
            ).cursor),
    {
        let ghost w = self.surf().width as int;
        let ghost h = self.surf().height as int;
        let ghost ch = self.surf().channels as int;
        let p: u128 = self.cursor.position(self.pic_width, self.pic_height, self.pic_col_planes);
        proof {
            lemma_pos_bounds(self.cursor, w, h, ch);
            lemma_fundamental_div_mod(p as int, 8);
        }
        let off: usize = (p / 8) as usize;
        let total: usize = match &self.image {
            Some(img) => img.data.len(),
            None => 0,
        };
        if (n as u128) > (total - off) as u128 {
            self.bytes_read = 0;
            self.code_bytes = Vec::new();
            return ;
        }
        let r = match &self.image {
            Some(img) => read_stream(img, &mut self.cursor, n as usize),
            None => Vec::new(),
        };
        proof {
            assert(r@ =~= old(self).surf().stream_seq(old(self).offset(), n as int));
        }
        self.code_bytes = r;
        self.bytes_read = n;
    }
}


/// The image carries the configured signature at the head of its
/// bitstream, and is large enough for the check to have been attempted.
pub open spec fn is_coded(img: ImageSurface, s: Settings) -> bool {
    &&& s.capacity_of(img.stream_len()) >= s.min_capacity
    &&& s.prog_code@.len() <= img.stream_len()
    &&& img.stream_seq(0, s.prog_code@.len() as int) == s.prog_code@
}

/// Byte-for-byte comparison of two byte slices.
#[verifier::loop_isolation(false)]
fn bytes_equal(a: &[u8], b: &[u8]) -> (r: bool)
    ensures
        r == (a@ == b@),
{
    if a.len() != b.len() {
        assert(a@.len() != b@.len());
        return false;
    }
    let n: usize = a.len();
    let mut i: usize = 0;
    while i < n
        invariant
            i <= n,
            forall|j: int| 0 <= j < i ==> a@[j] == b@[j],
        decreases n - i,
    {
        if a[i] != b[i] {
            return false;
        }
        i = i + 1;
    }
    proof {
        assert(a@ =~= b@);
    }
    true
}

/// The cursor's byte offset always lies inside the stream, and the
/// cursor's bit position is exactly eight times it.
pub proof fn lemma_offset_bound(s: Steganography)
    requires
        s.wf(),
        s.image is Some,
    ensures
        0 <= s.offset() <= s.surf().stream_len(),
        8 * s.offset() == s.cursor.pos(
            s.surf().width as int,
            s.surf().height as int,
            s.surf().channels as int,
        ),
{
    let img = s.surf();
    let w = img.width as int;
    let h = img.height as int;
    let ch = img.channels as int;
    lemma_pos_bounds(s.cursor, w, h, ch);
    lemma_fundamental_div_mod(s.cursor.pos(w, h, ch), 8);
}

impl Steganography {
    /// Decide whether the loaded image is coded: the capacity must reach
    /// the configured minimum and the signature must stand at the cursor.
    pub fn check_for_code(&mut self)
        requires
            old(self).wf(),
            old(self).image is Some,
        ensures
            final(self).wf(),
            final(self).image == old(self).image,
            final(self).settings == old(self).settings,
            final(self).img_to_proc == old(self).img_to_proc,
            final(self).pic_has_pw == old(self).pic_has_pw,
            final(self).user_permit == old(self).user_permit,
            final(self).pic_width == old(self).pic_width,
            final(self).pic_height == old(self).pic_height,
            final(self).pic_col_planes == old(self).pic_col_planes,
            final(self).embed_capacity == old(self).embed_capacity,
            ({
                let off = old(self).offset();
                let n = old(self).settings.prog_code@.len() as int;
                let img = old(self).surf();
                if old(self).embed_capacity < old(self).settings.min_capacity {
                    !final(self).pic_coded && final(self).cursor == old(self).cursor
                } else if off + n > img.stream_len() {
                    !final(self).pic_coded && final(self).cursor == old(self).cursor
                } else {
                    &&& (final(self).pic_coded <==> img.stream_seq(off, n) == old(
                        self,
                    ).settings.prog_code@)
                    &&& final(self).offset() == off + n
                }
            }),
    {
        proof {
            lemma_offset_bound(*self);
        }
        if self.embed_capacity < self.settings.min_capacity {
            self.pic_coded = false;
            return ;
        }
        let n32: u64 = self.settings.prog_code.len() as u64;
        self.read_data_from_image(n32);
        if self.bytes_read != n32 {
            self.pic_coded = false;
            return ;
        }
        let same = bytes_equal(self.code_bytes.as_slice(), self.settings.prog_code.as_slice());
        self.pic_coded = same;
    }

    /// Read the password flag byte at the cursor: 'Y' means the image
    /// stores a password digest.
    pub fn check_for_password(&mut self)
        requires
            old(self).wf(),
            old(self).image is Some,
        ensures
            final(self).wf(),
            final(self).image == old(self).image,
            final(self).settings == old(self).settings,
            final(self).img_to_proc == old(self).img_to_proc,
            final(self).pic_coded == old(self).pic_coded,
            final(self).user_permit == old(self).user_permit,
            final(self).pic_width == old(self).pic_width,
            final(self).pic_height == old(self).pic_height,
            final(self).pic_col_planes == old(self).pic_col_planes,
            final(self).embed_capacity == old(self).embed_capacity,
            ({
                let off = old(self).offset();
                let img = old(self).surf();
                if off + 1 <= img.stream_len() {
                    &&& (final(self).pic_has_pw <==> img.stream_byte(off) == 89)
                    &&& final(self).offset() == off + 1
                } else {
                    !final(self).pic_has_pw && final(self).cursor == old(self).cursor
                }
            }),
    {
        proof {
            lemma_offset_bound(*self);
        }
        self.read_data_from_image(1);
        if self.bytes_read != 1 {
            self.pic_has_pw = false;
            return ;
        }
        self.pic_has_pw = self.code_bytes[0] == 89;
    }

    /// Compare the digest stored at the cursor against the digest of the
    /// offered password; equality grants permission.
    pub fn check_valid_password(&mut self, password: &[u8])
        requires
            old(self).wf(),
            old(self).image is Some,
        ensures
            final(self).wf(),
            final(self).image == old(self).image,
            final(self).settings == old(self).settings,
            final(self).img_to_proc == old(self).img_to_proc,
            final(self).pic_coded == old(self).pic_coded,
            final(self).pic_has_pw == old(self).pic_has_pw,
            final(self).pic_width == old(self).pic_width,
            final(self).pic_height == old(self).pic_height,
            final(self).pic_col_planes == old(self).pic_col_planes,
            final(self).embed_capacity == old(self).embed_capacity,
            ({
                let off = old(self).offset();
                let img = old(self).surf();
                if off + 32 <= img.stream_len() {
                    &&& (final(self).user_permit <==> img.stream_seq(off, 32) == crate::sha::sha256_of(
                        password@,
                    ))
                    &&& final(self).offset() == off + 32
                } else {
                    !final(self).user_permit && final(self).cursor == old(self).cursor
                }
            }),
    {
        proof {
            lemma_offset_bound(*self);
        }
        let n32: u64 = self.settings.pw_hash_len as u64;
        self.read_data_from_image(n32);
        if self.bytes_read != n32 {
            self.user_permit = false;
            return ;
        }
        let digest = crate::sha::sha256(password);
        let same = bytes_equal(self.code_bytes.as_slice(), digest.as_slice());
        proof {
            if same {
                assert(old(self).surf().stream_seq(old(self).offset(), 32) =~= crate::sha::sha256_of(
                    password@,
                ));
            } else {
                assert(self.code_bytes@ == old(self).surf().stream_seq(old(self).offset(), 32));
            }
        }
        self.user_permit = same;
    }

    /// Take a freshly opened image (or none, when opening failed), cache
    /// its dimensions and capacity, and run the signature and password
    /// checks from the start of its stream.
    pub fn load_new_file(&mut self, loaded: Option<ImageSurface>)
        requires
            old(self).wf(),
            loaded matches Some(img) ==> img.wf(),
        ensures
            final(self).wf(),
            final(self).settings == old(self).settings,
            !final(self).user_permit,
            loaded is None ==> final(self).image is None && !final(self).img_to_proc
                && !final(self).pic_coded && !final(self).pic_has_pw
                && final(self).pic_width == 0 && final(self).pic_height == 0
                && final(self).pic_col_planes == 0 && final(self).embed_capacity == 0,
            loaded matches Some(img) ==> ({
                let sl = old(self).settings.prog_code@.len() as int;
                &&& final(self).image == loaded
                &&& final(self).img_to_proc
                &&& final(self).embed_capacity == old(self).settings.capacity_of(img.stream_len())
                &&& final(self).pic_coded == is_coded(img, old(self).settings)
                &&& (final(self).pic_coded ==> {
                    &&& (final(self).pic_has_pw <==> (sl + 1 <= img.stream_len()
                        && img.stream_byte(sl) == 89))
                    &&& final(self).offset() == (if sl + 1 <= img.stream_len() {
                        sl + 1
                    } else {
                        sl
                    })
                })
                &&& (!final(self).pic_coded ==> !final(self).pic_has_pw)
            }),
    {
        self.init_image_params();
        self.init_embed_params();
        match loaded {
            None => {},
            Some(img) => {
                self.pic_width = img.width;
                self.pic_height = img.height;
                self.pic_col_planes = img.channels;
                let cap = self.settings.capacity(img.data.len());
                self.embed_capacity = cap;
                self.image = Some(img);
                self.img_to_proc = true;
                proof {
                    let s = self.surf();
                    assert(self.cursor.pos(
                        s.width as int,
                        s.height as int,
                        s.channels as int,
                    ) == 0) by (nonlinear_arith)
                        requires
                            self.cursor.row == 0,
                            self.cursor.col == 0,
                            self.cursor.plane == 0,
                            self.cursor.bit == 0,
                    ;
                }
                self.check_for_code();
                if self.pic_coded {
                    self.check_for_password();
                }
            },
        }
    }
}


/// Copy a byte slice into a fresh vector.
#[verifier::loop_isolation(false)]
fn copy_bytes(src: &[u8]) -> (r: Vec<u8>)
    ensures
        r@ == src@,
{
    let mut r: Vec<u8> = Vec::new();
    let mut i: usize = 0;
    while i < src.len()
        invariant
            i <= src@.len(),
            r@ == src@.take(i as int),
        decreases src@.len() - i,
    {
        r.push(src[i]);
        proof {
            assert(r@ =~= src@.take(i + 1));
        }
        i = i + 1;
    }
    proof {
        assert(src@.take(src@.len() as int) =~= src@);
    }
    r
}

/// What every section write preserves: the invariant, the flags, and
/// the image's shape.
pub open spec fn embed_step_frame(pre: Steganography, post: Steganography) -> bool {
    &&& post.wf()
    &&& post.same_flags(pre)
    &&& post.image is Some
    &&& post.surf().same_shape(pre.surf())
    &&& post.surf().stream_len() == pre.surf().stream_len()
}

/// The section `sec` now stands at the old cursor offset, nothing else
/// in the stream moved, and the cursor stands just past it.
pub open spec fn wrote_section(pre: Steganography, post: Steganography, sec: Seq<u8>) -> bool {
    &&& post.offset() == pre.offset() + sec.len()
    &&& (forall|m: int|
        0 <= m < sec.len() ==> post.surf().stream_byte(pre.offset() + m) == sec[m])
    &&& (forall|m: int|
        0 <= m < pre.surf().stream_len() && !(pre.offset() <= m < pre.offset() + sec.len())
            ==> post.surf().stream_byte(m) == pre.surf().stream_byte(m))
}

impl Steganography {
    /// Write one section at the cursor, whole or not at all.  The bytes
    /// go through the writer one configured chunk at a time; since the
    /// cursor persists across chunks, the chunk size never changes the
    /// resulting bit layout, which is why the contract does not mention
    /// it.
    #[verifier::loop_isolation(false)]
    fn write_section(&mut self, bytes: &[u8]) -> (r: Result<(), StegError>)
        requires
            old(self).wf(),
            old(self).image is Some,
        ensures
            embed_step_frame(*old(self), *final(self)),
            final(self).image is Some,
            r is Ok <==> old(self).offset() + bytes@.len() <= old(self).surf().stream_len(),
            r is Ok ==> wrote_section(*old(self), *final(self), bytes@),
            r is Err ==> *final(self) == *old(self) && (r matches Err(e) && e
                == StegError::ShortReadWrite),
    {
        let ghost w = self.surf().width as int;
        let ghost h = self.surf().height as int;
        let ghost ch = self.surf().channels as int;
        let ghost off0 = self.offset();
        let ghost slen = self.surf().stream_len();
        let p: u128 = self.cursor.position(self.pic_width, self.pic_height, self.pic_col_planes);
        proof {
            lemma_pos_bounds(self.cursor, w, h, ch);
            lemma_fundamental_div_mod(p as int, 8);
        }
        let off: usize = (p / 8) as usize;
        let n: usize = bytes.len();
        let total: usize = match &self.image {
            Some(img) => img.data.len(),
            None => 0,
        };
        if n > total - off {
            return Err(StegError::ShortReadWrite);
        }
        let chunk: usize = self.settings.byte_chunk as usize;
        let mut i: usize = 0;
        while i < n
            invariant
                i <= n,
                self.wf(),
                self.image is Some,
                self.same_flags(*old(self)),
                self.surf().same_shape(old(self).surf()),
                self.surf().stream_len() == slen,
                self.bytes_read == old(self).bytes_read,
                self.code_bytes == old(self).code_bytes,
                self.offset() == off0 + i,
                forall|m: int|
                    0 <= m < i ==> self.surf().stream_byte(off0 + m) == bytes@[m],
                forall|m: int|
                    0 <= m < slen && !(off0 <= m < off0 + i) ==> self.surf().stream_byte(m)
                        == old(self).surf().stream_byte(m),
            decreases n - i,
        {
            let j: usize = if n - i < chunk {
                n
            } else {
                i + chunk
            };
            let part = vstd::slice::slice_subrange(bytes, i, j);
            let ghost mid = *self;
            let count = self.write_data_to_image(part);
            proof {
                assert(mid.offset() + part@.len() <= slen);
                assert forall|m: int| 0 <= m < j implies self.surf().stream_byte(off0 + m)
                    == bytes@[m] by {
                    if m >= i {
                        assert(self.surf().stream_byte(mid.offset() + (m - i)) == part@[m - i]);
                    }
                }
            }
            i = j;
        }
        Ok(())
    }

    /// Write the configured signature at the cursor.
    pub fn embed_preamble(&mut self) -> (r: Result<(), StegError>)
        requires
            old(self).wf(),
            old(self).image is Some,
        ensures
            embed_step_frame(*old(self), *final(self)),
            final(self).image is Some,
            r is Ok <==> old(self).offset() + old(self).settings.prog_code@.len() <= old(
                self,
            ).surf().stream_len(),
            r is Ok ==> wrote_section(*old(self), *final(self), old(self).settings.prog_code@),
            r is Err ==> *final(self) == *old(self) && (r matches Err(e) && e
                == StegError::ShortReadWrite),
    {
        let sec = copy_bytes(self.settings.prog_code.as_slice());
        self.write_section(sec.as_slice())
    }

    /// Write the password section at the cursor: 'N' alone, or 'Y'
    /// followed by the SHA-256 digest of the password.
    pub fn embed_password(&mut self, pw: bool, pw_str: &[u8]) -> (r: Result<(), StegError>)
        requires
            old(self).wf(),
            old(self).image is Some,
        ensures
            embed_step_frame(*old(self), *final(self)),
            final(self).image is Some,
            ({
                let sec = pw_stream(
                    if pw {
                        Option::Some(sha256_of(pw_str@))
                    } else {
                        Option::None
                    },
                );
                &&& (r is Ok <==> old(self).offset() + sec.len() <= old(
                    self,
                ).surf().stream_len())
                &&& (r is Ok ==> wrote_section(*old(self), *final(self), sec))
                &&& (r is Err ==> *final(self) == *old(self) && (r matches Err(e) && e
                    == StegError::ShortReadWrite))
                &&& sec.len() == (if pw {
                    33int
                } else {
                    1int
                })
            }),
    {
        let mut buf: Vec<u8> = Vec::new();
        if pw {
            buf.push(89);
            let mut digest = sha256(pw_str);
            buf.append(&mut digest);
            proof {
                assert(buf@ =~= pw_stream(Option::Some(sha256_of(pw_str@))));
            }
        } else {
            buf.push(78);
            proof {
                assert(buf@ =~= pw_stream(Option::<Seq<u8>>::None));
            }
        }
        self.write_section(buf.as_slice())
    }

    /// Write the 3-digit zero-padded file count at the cursor.
    pub fn embed_num_of_files(&mut self, num_files: u16) -> (r: Result<(), StegError>)
        requires
            old(self).wf(),
            old(self).image is Some,
            num_files <= 999,
        ensures
            embed_step_frame(*old(self), *final(self)),
            final(self).image is Some,
            r is Ok <==> old(self).offset() + 3 <= old(self).surf().stream_len(),
            r is Ok ==> wrote_section(*old(self), *final(self), dec_str(num_files as int, 3)),
            r is Err ==> *final(self) == *old(self) && (r matches Err(e) && e
                == StegError::ShortReadWrite),
    {
        proof {
            assert(pow10(3) == 1000) by {
                reveal_with_fuel(pow10, 5);
            }
        }
        let buf = encode_dec(num_files as u64, 3);
        self.write_section(buf.as_slice())
    }

    /// Write one file's frame at the cursor: 3-digit name length, name,
    /// 10-digit content size, then the content bytes.
    pub fn embed_file(&mut self, file: &FileEntry) -> (r: Result<(), StegError>)
        requires
            old(self).wf(),
            old(self).image is Some,
            file.name@.len() <= 999,
            file.content@.len() <= 9_999_999_999,
        ensures
            embed_step_frame(*old(self), *final(self)),
            final(self).image is Some,
            ({
                let sec = entry_stream(file.name@, file.content@);
                &&& (r is Ok <==> old(self).offset() + sec.len() <= old(
                    self,
                ).surf().stream_len())
                &&& (r is Ok ==> wrote_section(*old(self), *final(self), sec))
                &&& (r is Err ==> *final(self) == *old(self) && (r matches Err(e) && e
                    == StegError::ShortReadWrite))
            }),
    {
        proof {
            assert(pow10(3) == 1000 && pow10(10) == 10_000_000_000) by {
                reveal_with_fuel(pow10, 12);
            }
        }
        let mut buf = encode_dec(file.name.len() as u64, 3);
        let mut name = copy_bytes(file.name.as_slice());
        buf.append(&mut name);
        let mut size = encode_dec(file.content.len() as u64, 10);
        buf.append(&mut size);
        let mut content = copy_bytes(file.content.as_slice());
        buf.append(&mut content);
        proof {
            assert(buf@ =~= entry_stream(file.name@, file.content@));
            lemma_dec_lens(file.name@.len() as int, file.content@.len() as int);
        }
        self.write_section(buf.as_slice())
    }
}

/// The fixed-width fields of a frame have their fixed widths.
proof fn lemma_dec_lens(nl: int, sz: int)
    requires
        0 <= nl <= 999,
        0 <= sz <= 9_999_999_999,
    ensures
        dec_str(nl, 3).len() == 3,
        dec_str(sz, 10).len() == 10,
{
    assert(pow10(3) == 1000 && pow10(10) == 10_000_000_000) by {
        reveal_with_fuel(pow10, 12);
    }
    crate::format::lemma_dec_round_trip(nl, 3);
    crate::format::lemma_dec_round_trip(sz, 10);
}


/// Total content bytes of a file list: what the capacity check weighs.
pub open spec fn total_content(files: Seq<FileEntry>) -> int
    decreases files.len(),
{
    if files.len() == 0 {
        0
    } else {
        total_content(files.drop_last()) + files.last().content@.len()
    }
}

/// One write step extends the written prefix of the stream by its
/// section and keeps the untouched tail of the stream intact.
proof fn lemma_section_append(
    pre: Steganography,
    post: Steganography,
    orig: ImageSurface,
    acc: Seq<u8>,
    sec: Seq<u8>,
)
    requires
        pre.wf(),
        post.wf(),
        pre.image is Some,
        post.image is Some,
        post.surf().same_shape(pre.surf()),
        post.surf().stream_len() == pre.surf().stream_len(),
        orig.stream_len() == pre.surf().stream_len(),
        pre.offset() == acc.len(),
        pre.surf().stream_seq(0, acc.len() as int) == acc,
        forall|m: int|
            acc.len() <= m < pre.surf().stream_len() ==> pre.surf().stream_byte(m)
                == orig.stream_byte(m),
        wrote_section(pre, post, sec),
    ensures
        post.offset() == acc.len() + sec.len(),
        post.surf().stream_seq(0, acc.len() + sec.len() as int) == acc.add(sec),
        forall|m: int|
            acc.len() + sec.len() <= m < post.surf().stream_len() ==> post.surf().stream_byte(m)
                == orig.stream_byte(m),
{
    lemma_offset_bound(post);
    let n = acc.len() as int;
    let k = sec.len() as int;
    assert forall|m: int| 0 <= m < n + k implies post.surf().stream_byte(m) == acc.add(sec)[m] by {
        if m < n {
            assert(post.surf().stream_byte(m) == pre.surf().stream_byte(m));
            assert(pre.surf().stream_seq(0, n)[m] == pre.surf().stream_byte(m));
        } else {
            assert(post.surf().stream_byte(n + (m - n)) == sec[m - n]);
        }
    }
    assert(post.surf().stream_seq(0, n + k) =~= acc.add(sec));
    assert forall|m: int|
        n + k <= m < post.surf().stream_len() implies post.surf().stream_byte(m)
        == orig.stream_byte(m) by {
        assert(post.surf().stream_byte(m) == pre.surf().stream_byte(m));
    }
}

/// The framed bytes of any prefix of the files, plus the frame of the
/// next file, never exceed the framed bytes of the whole list.
proof fn lemma_entries_len_mono(files: Seq<(Seq<u8>, Seq<u8>)>, k: nat)
    requires
        k <= files.len(),
    ensures
        entries_stream(files.take(k as int)).len() <= entries_stream(files).len(),
    decreases files.len() - k,
{
    if k == files.len() {
        assert(files.take(k as int) =~= files);
    } else {
        assert(files.take(k as int + 1) =~= files.take(k as int).push(files[k as int]));
        lemma_entries_stream_push(files.take(k as int), files[k as int]);
        lemma_entries_len_mono(files, k + 1);
    }
}


impl Steganography {
    /// Embed the files into the loaded image, in order: signature,
    /// password section, file count, then each file's frame.  A request
    /// whose total content exceeds the capacity is rejected whole, with
    /// the image untouched; a stream that outgrows the image fails with
    /// a short-write error.
    #[verifier::loop_isolation(false)]
    #[verifier::rlimit(100)]
    pub fn embed_files(&mut self, pw: bool, pw_str: &[u8], files: &[FileEntry]) -> (r: Result<
        (),
        StegError,
    >)
        requires
            old(self).wf(),
            files@.len() <= 999,
            wf_entries(entries_view(files@)),
        ensures
            final(self).wf(),
            final(self).same_flags(*old(self)),
            !old(self).img_to_proc ==> *final(self) == *old(self) && r is Ok,
            old(self).img_to_proc ==> ({
                let pwopt = if pw {
                    Option::Some(sha256_of(pw_str@))
                } else {
                    Option::<Seq<u8>>::None
                };
                let stream = container_stream(
                    old(self).settings.prog_code@,
                    pwopt,
                    entries_view(files@),
                );
                let slen = old(self).surf().stream_len();
                &&& final(self).image is Some
                &&& final(self).surf().same_shape(old(self).surf())
                &&& (total_content(files@) > old(self).embed_capacity ==> (r matches Err(e) && e
                    == StegError::CapacityExceeded) && *final(self) == *old(self))
                &&& ((total_content(files@) <= old(self).embed_capacity && stream.len() <= slen)
                    ==> {
                    &&& r is Ok
                    &&& final(self).surf().stream_seq(0, stream.len() as int) == stream
                    &&& (forall|m: int|
                        stream.len() <= m < slen ==> final(self).surf().stream_byte(m) == old(
                            self,
                        ).surf().stream_byte(m))
                    &&& final(self).offset() == stream.len()
                })
                &&& ((total_content(files@) <= old(self).embed_capacity && stream.len() > slen)
                    ==> (r matches Err(e) && e == StegError::ShortReadWrite))
            }),
    {
        if !self.img_to_proc {
            return Ok(());
        }
        let ghost pwopt = if pw {
            Option::Some(sha256_of(pw_str@))
        } else {
            Option::<Seq<u8>>::None
        };
        let ghost views = entries_view(files@);
        let ghost stream = container_stream(self.settings.prog_code@, pwopt, views);
        let ghost slen = self.surf().stream_len();
        proof {
            assert(pow10(3) == 1000) by {
                reveal_with_fuel(pow10, 5);
            }
            crate::format::lemma_dec_round_trip(files@.len() as int, 3);
        }
        // Sum the content sizes of the files to embed.
        let mut total: u64 = 0;
        let mut i: usize = 0;
        while i < files.len()
            invariant
                i <= files@.len(),
                files@.len() <= 999,
                wf_entries(entries_view(files@)),
                total == total_content(files@.take(i as int)),
                total <= 10_000_000_000 * i,
            decreases files@.len() - i,
        {
            proof {
                assert(files@.take(i + 1).drop_last() =~= files@.take(i as int));
                assert(files@.take(i + 1).last() == files@[i as int]);
                assert(entries_view(files@)[i as int].0 == files@[i as int].name@);
                assert(entries_view(files@)[i as int].1 == files@[i as int].content@);
                assert(crate::format::wf_entry(
                    entries_view(files@)[i as int].0,
                    entries_view(files@)[i as int].1,
                ));
            }
            total = total + (files[i].content.len() as u64);
            i = i + 1;
        }
        proof {
            assert(files@.take(files@.len() as int) =~= files@);
        }
        if total > self.embed_capacity {
            return Err(StegError::CapacityExceeded);
        }
        // One continuous stream: the cursor is rewound once, here.
        self.init_embed_params();
        let ghost st0 = *self;
        let ghost orig = st0.surf();
        proof {
            lemma_offset_bound(st0);
            assert(st0.offset() == 0) by {
                assert(8 * st0.offset() == 0);
            }
            assert(st0.surf().stream_seq(0, 0) =~= Seq::<u8>::empty());
        }
        // Section: signature.
        match self.embed_preamble() {
            Err(_) => {
                return Err(StegError::ShortReadWrite);
            },
            Ok(_) => {},
        }
        let ghost sig = st0.settings.prog_code@;
        let ghost acc1 = Seq::<u8>::empty().add(sig);
        proof {
            lemma_section_append(st0, *self, orig, Seq::<u8>::empty(), sig);
            assert(acc1 =~= sig);
        }
        let ghost st1 = *self;
        // Section: password flag and digest.
        match self.embed_password(pw, pw_str) {
            Err(_) => {
                return Err(StegError::ShortReadWrite);
            },
            Ok(_) => {},
        }
        let ghost acc2 = acc1.add(pw_stream(pwopt));
        proof {
            lemma_section_append(st1, *self, orig, acc1, pw_stream(pwopt));
        }
        let ghost st2 = *self;
        // Section: number of embedded files.
        match self.embed_num_of_files(files.len() as u16) {
            Err(_) => {
                return Err(StegError::ShortReadWrite);
            },
            Ok(_) => {},
        }
        let ghost hdr = acc2.add(dec_str(files@.len() as int, 3));
        proof {
            lemma_section_append(st2, *self, orig, acc2, dec_str(files@.len() as int, 3));
            assert(entries_stream(views.take(0)) =~= Seq::<u8>::empty());
            assert(hdr.add(entries_stream(views.take(0))) =~= hdr);
        }
        // Sections: one frame per file.
        let mut i: usize = 0;
        while i < files.len()
            invariant
                i <= files@.len(),
                self.wf(),
                self.image is Some,
                self.same_flags(st0),
                self.surf().same_shape(orig),
                self.surf().stream_len() == slen,
                self.offset() == hdr.len() + entries_stream(views.take(i as int)).len(),
                self.surf().stream_seq(0, self.offset()) == hdr.add(
                    entries_stream(views.take(i as int)),
                ),
                forall|m: int|
                    self.offset() <= m < slen ==> self.surf().stream_byte(m)
                        == orig.stream_byte(m),
            decreases files@.len() - i,
        {
            let ghost pre = *self;
            let ghost acc = hdr.add(entries_stream(views.take(i as int)));
            let ghost entry = entry_stream(files@[i as int].name@, files@[i as int].content@);
            proof {
                assert(views[i as int].0 == files@[i as int].name@ && views[i as int].1
                    == files@[i as int].content@);
                assert(crate::format::wf_entry(views[i as int].0, views[i as int].1));
            }
            match self.embed_file(&files[i]) {
                Err(_) => {
                    proof {
                        assert(views.take(i + 1) =~= views.take(i as int).push(views[i as int]));
                        lemma_entries_stream_push(views.take(i as int), views[i as int]);
                        lemma_entries_len_mono(views, (i + 1) as nat);
                    }
                    return Err(StegError::ShortReadWrite);
                },
                Ok(_) => {},
            }
            proof {
                lemma_section_append(pre, *self, orig, acc, entry);
                assert(views.take(i + 1) =~= views.take(i as int).push(views[i as int]));
                lemma_entries_stream_push(views.take(i as int), views[i as int]);
                assert(acc.add(entry) =~= hdr.add(entries_stream(views.take(i + 1))));
            }
            i = i + 1;
        }
        proof {
            assert(views.take(views.len() as int) =~= views);
            assert(hdr.add(entries_stream(views)) =~= stream);
            assert(self.offset() == stream.len());
            assert(self.surf().stream_seq(0, stream.len() as int) == hdr.add(
                entries_stream(views),
            ));
            assert(forall|m: int|
                stream.len() <= m < slen ==> self.surf().stream_byte(m) == orig.stream_byte(m));
            assert(orig == old(self).surf());
            lemma_offset_bound(*self);
            assert(stream.len() <= slen);
        }
        Ok(())
    }
}


impl Steganography {
    /// Read the 3-digit file count at the cursor, then that many framed
    /// files, mirroring the embed order; the result is exactly what the
    /// stream parses to, and any short or malformed field is fatal.
    #[verifier::loop_isolation(false)]
    #[verifier::rlimit(100)]
    pub fn extract_files(&mut self) -> (r: Result<Vec<FileEntry>, StegError>)
        requires
            old(self).wf(),
            old(self).image is Some,
        ensures
            final(self).wf(),
            final(self).image == old(self).image,
            final(self).same_flags(*old(self)),
            ({
                let img = old(self).surf();
                let rem = img.stream_seq(
                    old(self).offset(),
                    img.stream_len() - old(self).offset(),
                );
                match parse_payload(rem) {
                    Option::Some(fs) => r matches Ok(v) && entries_view(v@) == fs,
                    Option::None => (r matches Err(e) && e == StegError::ShortReadWrite),
                }
            }),
    {
        proof {
            lemma_offset_bound(*old(self));
        }
        let ghost img = self.surf();
        let ghost off0 = self.offset();
        let ghost rem = img.stream_seq(off0, img.stream_len() - off0);
        // The 3-digit file count.
        self.read_data_from_image(3);
        if self.bytes_read != 3 {
            proof {
                assert(rem.len() < 3);
            }
            return Err(StegError::ShortReadWrite);
        }
        proof {
            assert(self.code_bytes@ =~= rem.subrange(0, 3));
        }
        let count: u64 = match decode_dec(self.code_bytes.as_slice()) {
            None => {
                proof {
                    assert(!is_dec(rem.subrange(0, 3)));
                }
                return Err(StegError::ShortReadWrite);
            },
            Some(v) => v,
        };
        let ghost kcount = dec_val(rem.subrange(0, 3)) as nat;
        let mut out: Vec<FileEntry> = Vec::new();
        let mut k: u64 = 0;
        proof {
            assert(img.stream_seq(self.offset(), img.stream_len() - self.offset()) =~= rem.skip(
                3,
            ));
        }
        while k < count
            invariant
                k <= count,
                self.wf(),
                self.image == old(self).image,
                self.same_flags(*old(self)),
                off0 + 3 <= self.offset() <= img.stream_len(),
                ({
                    let remk = img.stream_seq(
                        self.offset(),
                        img.stream_len() - self.offset(),
                    );
                    parse_entries(rem.skip(3), kcount) == (match parse_entries(
                        remk,
                        (count - k) as nat,
                    ) {
                        Option::None => Option::<Seq<(Seq<u8>, Seq<u8>)>>::None,
                        Option::Some(rest) => Option::Some(entries_view(out@).add(rest)),
                    })
                }),
            decreases count - k,
        {
            let ghost o = self.offset();
            let ghost remk = img.stream_seq(o, img.stream_len() - o);
            // Name length: 3 digits.
            self.read_data_from_image(3);
            if self.bytes_read != 3 {
                proof {
                    assert(remk.len() < 3);
                    assert(parse_entry(remk) is None);
                }
                return Err(StegError::ShortReadWrite);
            }
            proof {
                assert(self.code_bytes@ =~= remk.subrange(0, 3));
            }
            let nl: u64 = match decode_dec(self.code_bytes.as_slice()) {
                None => {
                    proof {
                        assert(!is_dec(remk.subrange(0, 3)));
                        assert(parse_entry(remk) is None);
                    }
                    return Err(StegError::ShortReadWrite);
                },
                Some(v) => v,
            };
            // The name itself.
            self.read_data_from_image(nl);
            if self.bytes_read != nl {
                proof {
                    assert(remk.len() < 3 + nl <= 13 + nl);
                    assert(parse_entry(remk) is None);
                }
                return Err(StegError::ShortReadWrite);
            }
            let name = copy_bytes(self.code_bytes.as_slice());
            proof {
                assert(name@ =~= remk.subrange(3, 3 + nl));
            }
            // Content size: 10 digits.
            self.read_data_from_image(10);
            if self.bytes_read != 10 {
                proof {
                    assert(remk.len() < 13 + nl);
                    assert(parse_entry(remk) is None);
                }
                return Err(StegError::ShortReadWrite);
            }
            proof {
                assert(self.code_bytes@ =~= remk.subrange(3 + nl, 13 + nl));
            }
            let sz: u64 = match decode_dec(self.code_bytes.as_slice()) {
                None => {
                    proof {
                        assert(!is_dec(remk.subrange(3 + nl, 13 + nl)));
                        assert(parse_entry(remk) is None);
                    }
                    return Err(StegError::ShortReadWrite);
                },
                Some(v) => v,
            };
            // The content bytes.
            self.read_data_from_image(sz);
            if self.bytes_read != sz {
                proof {
                    assert(remk.len() < 13 + nl + sz);
                    assert(parse_entry(remk) is None);
                }
                return Err(StegError::ShortReadWrite);
            }
            let content = copy_bytes(self.code_bytes.as_slice());
            proof {
                assert(content@ =~= remk.subrange(13 + nl, 13 + nl + sz));
            }
            let entry = FileEntry { name, content };
            let ghost pair = (entry.name@, entry.content@);
            proof {
                assert(parse_entry(remk) == Option::Some((pair, 13 + nl + sz)));
                assert(img.stream_seq(self.offset(), img.stream_len() - self.offset())
                    =~= remk.skip(13 + nl + sz));
            }
            out.push(entry);
            proof {
                assert(entries_view(out@) =~= entries_view(out@.drop_last()).push(pair));
                let remn = img.stream_seq(self.offset(), img.stream_len() - self.offset());
                match parse_entries(remn, (count - k - 1) as nat) {
                    Option::None => {},
                    Option::Some(rest) => {
                        assert(entries_view(out@.drop_last()).add(seq![pair].add(rest))
                            =~= entries_view(out@).add(rest));
                    },
                }
            }
            k = k + 1;
        }
        proof {
            let remk = img.stream_seq(self.offset(), img.stream_len() - self.offset());
            assert(parse_entries(remk, 0) == Option::Some(Seq::<(Seq<u8>, Seq<u8>)>::empty()));
            assert(entries_view(out@).add(Seq::empty()) =~= entries_view(out@));
            assert(parse_payload(rem) == Option::Some(entries_view(out@)));
        }
        Ok(out)
    }
}


impl Steganography {
    /// The whole extract flow on a freshly opened image: the capacity
    /// and signature gates decide whether the image is coded at all, the
    /// password gate decides permission, and only then are the files
    /// read out.  A signature field that cannot be read in full is a
    /// fatal short read, not a soft negative signature result.
    pub fn extract_from_image(
        &mut self,
        loaded: Option<ImageSurface>,
        password: Option<&[u8]>,
    ) -> (r: Result<Vec<FileEntry>, StegError>)
        requires
            old(self).wf(),
            loaded matches Some(img) ==> img.wf(),
        ensures
            final(self).wf(),
            final(self).settings == old(self).settings,
            loaded is None ==> (r matches Err(e) && e == StegError::ImageLoadError),
            loaded matches Some(img) ==> ({
                let s = old(self).settings;
                let sl = s.prog_code@.len() as int;
                let cap_ok = s.capacity_of(img.stream_len()) >= s.min_capacity;
                let coded = is_coded(img, s);
                let has_pw = coded && sl + 1 <= img.stream_len() && img.stream_byte(sl) == 89;
                &&& (!cap_ok ==> (r matches Err(e) && e == StegError::CapacityTooSmall))
                &&& ((cap_ok && sl > img.stream_len()) ==> (r matches Err(e) && e
                    == StegError::ShortReadWrite))
                &&& ((cap_ok && sl <= img.stream_len() && !coded) ==> (r matches Err(e) && e
                    == StegError::SignatureMismatch))
                &&& ((coded && has_pw && password is None) ==> (r matches Err(e) && e
                    == StegError::PasswordMismatch))
                &&& ((coded && has_pw && (password matches Some(pw) && !(sl + 33
                    <= img.stream_len() && img.stream_seq(sl + 1, 32) == sha256_of(pw@))))
                    ==> (r matches Err(e) && e == StegError::PasswordMismatch))
                &&& ({
                    let off = if has_pw {
                        sl + 33
                    } else if sl + 1 <= img.stream_len() {
                        sl + 1
                    } else {
                        sl
                    };
                    (coded && (has_pw ==> (password matches Some(pw) && sl + 33
                        <= img.stream_len() && img.stream_seq(sl + 1, 32) == sha256_of(pw@))))
                        ==> (match parse_payload(
                        img.stream_seq(off, img.stream_len() - off),
                    ) {
                        Option::Some(fs) => r matches Ok(v) && entries_view(v@) == fs,
                        Option::None => (r matches Err(e) && e == StegError::ShortReadWrite),
                    })
                })
            }),
    {
        if loaded.is_none() {
            self.load_new_file(None);
            return Err(StegError::ImageLoadError);
        }
        self.load_new_file(loaded);
        if self.embed_capacity < self.settings.min_capacity {
            return Err(StegError::CapacityTooSmall);
        }
        // A signature that cannot even be read in full is a short read,
        // a fatal transfer error, not a soft "not coded".
        let stream_bytes: usize = match &self.image {
            Some(img) => img.data.len(),
            None => 0,
        };
        if self.settings.prog_code.len() > stream_bytes {
            return Err(StegError::ShortReadWrite);
        }
        if !self.pic_coded {
            return Err(StegError::SignatureMismatch);
        }
        if self.pic_has_pw {
            match password {
                None => {
                    return Err(StegError::PasswordMismatch);
                },
                Some(pw) => {
                    self.check_valid_password(pw);
                    if !self.user_permit {
                        return Err(StegError::PasswordMismatch);
                    }
                },
            }
        }
        self.extract_files()
    }
}

} // verus!
