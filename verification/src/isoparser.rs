//! Finger minutiae records in the binary format of ISO/IEC 19794-2.

use vstd::prelude::*;

verus! {

/// The kinds of minutiae that a record tells apart.
#[derive(Clone, Copy, Debug, PartialEq, Eq, Structural)]
pub enum MinutiaType {
    Other,
    RidgeEnding,
    RidgeBifurcation,
}

/// One minutia of a record. The angle is held as the record holds it, in
/// units of 1.40625 degrees.
#[derive(Clone, Copy, Debug)]
pub struct Minutia {
    pub ty: MinutiaType,
    pub x: u16,
    pub y: u16,
    pub angle: u8,
    pub quality: u8,
}

/// One view of a finger.
#[derive(Debug)]
pub struct FingerView {
    pub finger_position: u8,
    pub impr_type: u8,
    pub finger_quality: u8,
    pub minutiae: Vec<Minutia>,
}

/// A record: its header and its views.
#[derive(Debug)]
pub struct Record {
    pub capture_equipment: u16,
    pub x_image_size: u16,
    pub y_image_size: u16,
    pub x_resolution: u16,
    pub y_resolution: u16,
    pub views: Vec<FingerView>,
}

/// Why a record could not be read.
#[derive(Clone, Copy, Debug, PartialEq, Eq, Structural)]
pub enum ParseError {
    /// The bytes do not start as a record does, or name a kind of minutia
    /// that does not exist.
    InvalidFormat,
    /// The bytes are fewer than the record needs, or not as many as it says.
    InvalidLength,
}

/// What a view stands for.
pub struct ViewData {
    pub finger_position: u8,
    pub impr_type: u8,
    pub finger_quality: u8,
    pub minutiae: Seq<Minutia>,
}

/// What a record stands for.
pub struct RecordData {
    pub capture_equipment: u16,
    pub x_image_size: u16,
    pub y_image_size: u16,
    pub x_resolution: u16,
    pub y_resolution: u16,
    pub views: Seq<ViewData>,
}

impl View for FingerView {
    type V = ViewData;

    open spec fn view(&self) -> ViewData {
        ViewData {
            finger_position: self.finger_position,
            impr_type: self.impr_type,
            finger_quality: self.finger_quality,
            minutiae: self.minutiae@,
        }
    }
}

impl View for Record {
    type V = RecordData;

    open spec fn view(&self) -> RecordData {
        RecordData {
            capture_equipment: self.capture_equipment,
            x_image_size: self.x_image_size,
            y_image_size: self.y_image_size,
            x_resolution: self.x_resolution,
            y_resolution: self.y_resolution,
            views: Seq::new(self.views@.len(), |i: int| self.views@[i]@),
        }
    }
}

/// Length of the header of a record.
pub const HEADER_LENGTH: usize = 24;

/// Length of the header of a view.
pub const VIEW_HEADER_LENGTH: usize = 4;

/// Length of a minutia.
pub const MINUTIA_LENGTH: usize = 6;

/// The number that two bytes spell, the first byte weighing more.
pub open spec fn word_at(file: Seq<u8>, at: int) -> int {
    file[at] * 256 + file[at + 1]
}

/// The number that four bytes spell, the first byte weighing most.
pub open spec fn long_at(file: Seq<u8>, at: int) -> int {
    word_at(file, at) * 65536 + word_at(file, at + 2)
}

/// The kind that the two highest bits of the first word of a minutia name.
pub open spec fn type_of(code: int) -> Option<MinutiaType> {
    if code == 0 {
        Some(MinutiaType::Other)
    } else if code == 1 {
        Some(MinutiaType::RidgeEnding)
    } else if code == 2 {
        Some(MinutiaType::RidgeBifurcation)
    } else {
        None
    }
}

/// The minutia that the six bytes at `at` stand for: two words whose lower
/// fourteen bits are the coordinates, the upper two bits of the first
/// naming the kind, then the angle and the quality.
pub open spec fn minutia_at(file: Seq<u8>, at: int) -> Result<Minutia, ParseError> {
    if at + MINUTIA_LENGTH > file.len() {
        Err(ParseError::InvalidLength)
    } else {
        match type_of(word_at(file, at) / 16384) {
            None => Err(ParseError::InvalidFormat),
            Some(ty) => Ok(
                Minutia {
                    ty,
                    x: (word_at(file, at) % 16384) as u16,
                    y: (word_at(file, at + 2) % 16384) as u16,
                    angle: file[at + 4],
                    quality: file[at + 5],
                },
            ),
        }
    }
}

/// The first `n` minutiae from `base` on, or the first error among them.
pub open spec fn minutiae_at(file: Seq<u8>, base: int, n: int) -> Result<Seq<Minutia>, ParseError>
    decreases n,
{
    if n <= 0 {
        Ok(Seq::empty())
    } else {
        match minutiae_at(file, base, n - 1) {
            Err(error) => Err(error),
            Ok(earlier) => match minutia_at(file, base + (n - 1) * MINUTIA_LENGTH) {
                Err(error) => Err(error),
                Ok(minutia) => Ok(earlier.push(minutia)),
            },
        }
    }
}

/// The view that stands behind the header of the record: four bytes, the
/// last of them the number of minutiae, then the minutiae.
pub open spec fn first_view(file: Seq<u8>) -> Result<ViewData, ParseError> {
    if HEADER_LENGTH + VIEW_HEADER_LENGTH > file.len() {
        Err(ParseError::InvalidLength)
    } else {
        match minutiae_at(
            file,
            (HEADER_LENGTH + VIEW_HEADER_LENGTH) as int,
            file[HEADER_LENGTH + 3] as int,
        ) {
            Err(error) => Err(error),
            Ok(minutiae) => Ok(
                ViewData {
                    finger_position: file[HEADER_LENGTH as int],
                    impr_type: file[HEADER_LENGTH + 1],
                    finger_quality: file[HEADER_LENGTH + 2],
                    minutiae,
                },
            ),
        }
    }
}

/// The record that the bytes stand for.
///
/// A record starts with the letters `FMR` and a zero byte. The four bytes
/// from the ninth on give its length, which must be the number of bytes,
/// both taken as 32-bit numbers. Five words from the thirteenth byte on
/// describe the capture, and the byte behind them gives the number of
/// views. Every view is read from the place behind the header, so a record
/// of several views holds its first view as often as it has views.
pub open spec fn spec_load_iso(file: Seq<u8>) -> Result<RecordData, ParseError> {
    if file.len() < 4 || file[0] != 70 || file[1] != 77 || file[2] != 82 || file[3] != 0 {
        Err(ParseError::InvalidFormat)
    } else if file.len() < HEADER_LENGTH || long_at(file, 8) != file.len() % 0x1_0000_0000 {
        Err(ParseError::InvalidLength)
    } else if file[22] == 0 {
        Ok(header_of(file, Seq::empty()))
    } else {
        match first_view(file) {
            Err(error) => Err(error),
            Ok(view) => Ok(header_of(file, Seq::new(file[22] as nat, |i: int| view))),
        }
    }
}

/// The record with the header of the file and the given views.
pub open spec fn header_of(file: Seq<u8>, views: Seq<ViewData>) -> RecordData {
    RecordData {
        capture_equipment: word_at(file, 12) as u16,
        x_image_size: word_at(file, 14) as u16,
        y_image_size: word_at(file, 16) as u16,
        x_resolution: word_at(file, 18) as u16,
        y_resolution: word_at(file, 20) as u16,
        views,
    }
}

/// Reads the word at `at`.
fn read_word(file: &[u8], at: usize) -> (word: u16)
    requires
        at + 1 < file@.len(),
    ensures
        word == word_at(file@, at as int),
{
    (file[at] as u16) * 256 + file[at + 1] as u16
}

/// Reads the minutia at `at`.
fn read_minutia(file: &[u8], at: usize) -> (minutia: Result<Minutia, ParseError>)
    requires
        at + MINUTIA_LENGTH <= usize::MAX,
    ensures
        minutia == minutia_at(file@, at as int),
{
    if at + MINUTIA_LENGTH > file.len() {
        return Err(ParseError::InvalidLength);
    }
    let raw_x: u16 = read_word(file, at);
    let raw_y: u16 = read_word(file, at + 2);
    let code: u16 = (raw_x & 0xc000) >> 14;
    let x: u16 = raw_x & 0x3fff;
    let y: u16 = raw_y & 0x3fff;
    assert(code == raw_x / 16384 && x == raw_x % 16384) by (bit_vector)
        requires
            code == (raw_x & 0xc000) >> 14,
            x == raw_x & 0x3fff,
    ;
    assert(y == raw_y % 16384) by (bit_vector)
        requires
            y == raw_y & 0x3fff,
    ;
    let ty: MinutiaType = if code == 0 {
        MinutiaType::Other
    } else if code == 1 {
        MinutiaType::RidgeEnding
    } else if code == 2 {
        MinutiaType::RidgeBifurcation
    } else {
        return Err(ParseError::InvalidFormat);
    };
    Ok(Minutia { ty, x, y, angle: file[at + 4], quality: file[at + 5] })
}

/// Reads the view behind the header of the record.
fn read_first_view(file: &[u8]) -> (view: Result<FingerView, ParseError>)
    ensures
        match view {
            Ok(view) => first_view(file@) == Ok::<ViewData, ParseError>(view@),
            Err(error) => first_view(file@) == Err::<ViewData, ParseError>(error),
        },
{
    if HEADER_LENGTH + VIEW_HEADER_LENGTH > file.len() {
        return Err(ParseError::InvalidLength);
    }
    let count: usize = file[HEADER_LENGTH + 3] as usize;
    let base: usize = HEADER_LENGTH + VIEW_HEADER_LENGTH;
    let mut minutiae: Vec<Minutia> = Vec::new();
    let mut k: usize = 0;
    while k < count
        invariant
            k <= count <= 255,
            base == HEADER_LENGTH + VIEW_HEADER_LENGTH,
            base <= file@.len(),
            count == file@[HEADER_LENGTH + 3],
            minutiae_at(file@, base as int, k as int) == Ok::<Seq<Minutia>, ParseError>(minutiae@),
        decreases count - k,
    {
        match read_minutia(file, base + k * MINUTIA_LENGTH) {
            Ok(minutia) => {
                minutiae.push(minutia);
            },
            Err(error) => {
                proof {
                    lemma_minutiae_at_error(file@, base as int, k + 1, count as int);
                }
                return Err(error);
            },
        }
        k = k + 1;
    }
    Ok(
        FingerView {
            finger_position: file[HEADER_LENGTH],
            impr_type: file[HEADER_LENGTH + 1],
            finger_quality: file[HEADER_LENGTH + 2],
            minutiae,
        },
    )
}

/// An error among the first minutiae is the error of all minutiae.
proof fn lemma_minutiae_at_error(file: Seq<u8>, base: int, n: int, all: int)
    requires
        0 <= n <= all,
        minutiae_at(file, base, n).is_err(),
    ensures
        minutiae_at(file, base, all) == minutiae_at(file, base, n),
    decreases all - n,
{
    if n < all {
        lemma_minutiae_at_error(file, base, n, all - 1);
    }
}

/// Reads a record from the bytes of a file.
pub fn load_iso(file: &[u8]) -> (record: Result<Record, ParseError>)
    ensures
        match record {
            Ok(record) => spec_load_iso(file@) == Ok::<RecordData, ParseError>(record@),
            Err(error) => spec_load_iso(file@) == Err::<RecordData, ParseError>(error),
        },
{
    if file.len() < 4 || file[0] != 70 || file[1] != 77 || file[2] != 82 || file[3] != 0 {
        return Err(ParseError::InvalidFormat);
    }
    if file.len() < HEADER_LENGTH {
        return Err(ParseError::InvalidLength);
    }
    let length: u64 = (read_word(file, 8) as u64) * 65536 + read_word(file, 10) as u64;
    if length != (file.len() as u64) % 0x1_0000_0000 {
        return Err(ParseError::InvalidLength);
    }
    let n_finger_views: usize = file[22] as usize;
    let mut views: Vec<FingerView> = Vec::new();
    let mut i: usize = 0;
    while i < n_finger_views
        invariant
            i <= n_finger_views,
            file@.len() >= HEADER_LENGTH,
            file@[0] == 70 && file@[1] == 77 && file@[2] == 82 && file@[3] == 0,
            long_at(file@, 8) == file@.len() % 0x1_0000_0000,
            n_finger_views == file@[22],
            views@.len() == i,
            i > 0 ==> first_view(file@).is_ok(),
            forall|k: int|
                0 <= k < i ==> first_view(file@) == Ok::<ViewData, ParseError>(
                    (#[trigger] views@[k])@,
                ),
        decreases n_finger_views - i,
    {
        match read_first_view(file) {
            Ok(view) => {
                views.push(view);
            },
            Err(error) => {
                return Err(error);
            },
        }
        i = i + 1;
    }
    let record = Record {
        capture_equipment: read_word(file, 12),
        x_image_size: read_word(file, 14),
        y_image_size: read_word(file, 16),
        x_resolution: read_word(file, 18),
        y_resolution: read_word(file, 20),
        views,
    };
    proof {
        let expected = spec_load_iso(file@);
        assert(expected.is_ok());
        assert(record@.views =~= expected.unwrap().views);
    }
    Ok(record)
}

} // verus!
