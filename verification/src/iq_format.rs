//! Sample formats on disk and capture metadata.

use vstd::prelude::*;
use vstd::string::*;
use crate::diag::IqIngest;

verus! {

/// How samples are encoded on disk.
#[derive(Debug, Clone, Copy, PartialEq, Eq, Structural)]
pub enum IqFormat {
    /// Unsigned bytes around 127.5.
    Cs8,
    /// Signed 16-bit numbers, full scale 32768.
    Cs16Le,
    /// 32-bit floating-point numbers.
    Cf32Le,
    /// Packed 12-bit samples; not supported.
    AirspyPacked12,
}

/// Why a capture cannot be read.
#[derive(Debug)]
pub enum IqError {
    /// The format is not supported.
    UnsupportedFormat(IqFormat),
    /// The metadata lacks a required field, which is named, or has an unknown sample
    /// format, which is quoted.
    SidecarField(String),
}

/// Bytes per sample of a format.
pub open spec fn sample_bytes(format: IqFormat) -> Option<int> {
    match format {
        IqFormat::Cs8 => Some(2),
        IqFormat::Cs16Le => Some(4),
        IqFormat::Cf32Le => Some(8),
        IqFormat::AirspyPacked12 => None,
    }
}

// ---------------------------------------------------------------------------
// Names of formats
// ---------------------------------------------------------------------------

/// `s` in upper case, as `str::to_uppercase` has it.
pub uninterp spec fn uppercase(s: Seq<char>) -> Seq<char>;

/// `s` in lower case, as `str::to_lowercase` has it.
pub uninterp spec fn lowercase(s: Seq<char>) -> Seq<char>;

/// Every character is ASCII.
pub open spec fn is_ascii_text(s: Seq<char>) -> bool {
    forall|i: int| 0 <= i < s.len() ==> #[trigger] s[i] <= '\x7F'
}

/// `c`, as a capital if it is an ASCII letter.
pub open spec fn ascii_capital(c: char) -> char {
    if 'a' <= c <= 'z' {
        ((c as u8) - 32) as u8 as char
    } else {
        c
    }
}

/// `c`, as a small letter if it is an ASCII letter.
pub open spec fn ascii_small(c: char) -> char {
    if 'A' <= c <= 'Z' {
        ((c as u8) + 32) as u8 as char
    } else {
        c
    }
}

/// Calls `str::to_uppercase`.  It claims that the result is the one named
/// `uppercase`, and that ASCII text is mapped letter by letter.
#[verifier::external_body]
fn to_upper(s: &str) -> (t: String)
    ensures
        t@ == uppercase(s@),
        is_ascii_text(s@) ==> t@ == s@.map_values(|c: char| ascii_capital(c)),
{
    s.to_uppercase()
}

/// Calls `str::to_lowercase`.  It claims that the result is the one named
/// `lowercase`, and that ASCII text is mapped letter by letter.
#[verifier::external_body]
fn to_lower(s: &str) -> (t: String)
    ensures
        t@ == lowercase(s@),
        is_ascii_text(s@) ==> t@ == s@.map_values(|c: char| ascii_small(c)),
{
    s.to_lowercase()
}

/// The format that an upper-case metadata name stands for.
pub open spec fn sidecar_format(name: Seq<char>) -> Option<IqFormat> {
    if name == "INT16_IQ"@ {
        Some(IqFormat::Cs16Le)
    } else if name == "CS8"@ || name == "UINT8"@ {
        Some(IqFormat::Cs8)
    } else if name == "FLOAT32_IQ"@ || name == "CF32"@ {
        Some(IqFormat::Cf32Le)
    } else {
        None
    }
}

/// The format that a lower-case option value stands for.
pub open spec fn option_format(name: Seq<char>) -> Option<IqFormat> {
    if name == "cs16le"@ {
        Some(IqFormat::Cs16Le)
    } else if name == "cs8"@ {
        Some(IqFormat::Cs8)
    } else if name == "cf32le"@ {
        Some(IqFormat::Cf32Le)
    } else {
        None
    }
}

/// The ingest path that a lower-case option value stands for.
pub open spec fn option_ingest(name: Seq<char>) -> Option<IqIngest> {
    if name == "cs16le"@ {
        Some(IqIngest::Cs16Le3MSPS)
    } else if name == "cu8"@ {
        Some(IqIngest::Cu82048k)
    } else {
        None
    }
}

fn is_text(a: &str, b: &str) -> (r: bool)
    ensures
        r == (a@ == b@),
{
    String::from_str(a) == String::from_str(b)
}

/// Reads an upper-case metadata name.
pub fn format_of_sidecar_name(name: &str) -> (f: Option<IqFormat>)
    ensures
        f == sidecar_format(name@),
{
    if is_text(name, "INT16_IQ") {
        Some(IqFormat::Cs16Le)
    } else if is_text(name, "CS8") || is_text(name, "UINT8") {
        Some(IqFormat::Cs8)
    } else if is_text(name, "FLOAT32_IQ") || is_text(name, "CF32") {
        Some(IqFormat::Cf32Le)
    } else {
        None
    }
}

/// Reads a lower-case option value that names a format.
pub fn format_of_option(name: &str) -> (f: Option<IqFormat>)
    ensures
        f == option_format(name@),
{
    if is_text(name, "cs16le") {
        Some(IqFormat::Cs16Le)
    } else if is_text(name, "cs8") {
        Some(IqFormat::Cs8)
    } else if is_text(name, "cf32le") {
        Some(IqFormat::Cf32Le)
    } else {
        None
    }
}

/// Reads a lower-case option value that names an ingest path.
pub fn ingest_of_option(name: &str) -> (i: Option<IqIngest>)
    ensures
        i == option_ingest(name@),
{
    if is_text(name, "cs16le") {
        Some(IqIngest::Cs16Le3MSPS)
    } else if is_text(name, "cu8") {
        Some(IqIngest::Cu82048k)
    } else {
        None
    }
}

/// Reads an option value that names a format, in whatever case.
pub fn parse_format(s: &str) -> (f: Option<IqFormat>)
    ensures
        f == option_format(lowercase(s@)),
        is_ascii_text(s@) ==> f == option_format(s@.map_values(|c: char| ascii_small(c))),
{
    format_of_option(to_lower(s).as_str())
}

/// Reads an option value that names an ingest path, in whatever case.
pub fn parse_ingest(s: &str) -> (i: Option<IqIngest>)
    ensures
        i == option_ingest(lowercase(s@)),
        is_ascii_text(s@) ==> i == option_ingest(s@.map_values(|c: char| ascii_small(c))),
{
    ingest_of_option(to_lower(s).as_str())
}

impl IqFormat {
    /// Bytes per sample, if the format is supported.
    pub fn bytes_per_sample(self) -> (n: Option<usize>)
        ensures
            n is Some <==> sample_bytes(self) is Some,
            n matches Some(k) ==> sample_bytes(self) == Some(k as int),
    {
        match self {
            IqFormat::Cs8 => Some(2),
            IqFormat::Cs16Le => Some(4),
            IqFormat::Cf32Le => Some(8),
            IqFormat::AirspyPacked12 => None,
        }
    }

    /// Reads the name of a format in capture metadata, in whatever case.
    pub fn from_sidecar_str(s: &str) -> (f: Option<Self>)
        ensures
            f == sidecar_format(uppercase(s@)),
            is_ascii_text(s@) ==> f == sidecar_format(s@.map_values(|c: char| ascii_capital(c))),
    {
        format_of_sidecar_name(to_upper(s).as_str())
    }
}

// ---------------------------------------------------------------------------
// Metadata
// ---------------------------------------------------------------------------

/// The radio section of capture metadata.
#[derive(Debug, Clone)]
pub struct RfSection {
    /// Sample rate in Hz.
    pub sample_rate: u32,
    /// Centre frequency in Hz.
    pub frequency_hz: u64,
    /// Name of the sample format.
    pub sample_format: String,
    /// Channel label.
    pub channel: Option<String>,
    /// Operator or ensemble label.
    pub operator: Option<String>,
}

/// The radio section as found, before it is known to be complete.
#[derive(Debug, Clone)]
pub struct RfFields {
    pub sample_rate: Option<u32>,
    pub frequency_hz: Option<u64>,
    pub sample_format: Option<String>,
    pub channel: Option<String>,
    pub operator: Option<String>,
}

/// The first required field that is missing.
pub open spec fn missing_field(found: Option<RfFields>) -> Option<Seq<char>> {
    match found {
        None => Some("rf"@),
        Some(f) => if f.sample_rate is None {
            Some("rf.sample_rate"@)
        } else if f.frequency_hz is None {
            Some("rf.frequency_hz"@)
        } else if f.sample_format is None {
            Some("rf.sample_format"@)
        } else {
            None
        },
    }
}

/// Completes the radio section; a required field that is missing is an error.
pub fn require_fields(found: Option<RfFields>) -> (r: Result<RfSection, IqError>)
    ensures
        match r {
            Ok(rf) => missing_field(found) is None && found == Some(
                RfFields {
                    sample_rate: Some(rf.sample_rate),
                    frequency_hz: Some(rf.frequency_hz),
                    sample_format: Some(rf.sample_format),
                    channel: rf.channel,
                    operator: rf.operator,
                },
            ),
            Err(IqError::SidecarField(name)) => missing_field(found) == Some(name@),
            Err(IqError::UnsupportedFormat(_)) => false,
        },
{
    let f: RfFields = match found {
        Some(f) => f,
        None => {
            return Err(IqError::SidecarField(String::from_str("rf")));
        },
    };
    let sample_rate: u32 = match f.sample_rate {
        Some(v) => v,
        None => {
            return Err(IqError::SidecarField(String::from_str("rf.sample_rate")));
        },
    };
    let frequency_hz: u64 = match f.frequency_hz {
        Some(v) => v,
        None => {
            return Err(IqError::SidecarField(String::from_str("rf.frequency_hz")));
        },
    };
    let sample_format: String = match f.sample_format {
        Some(v) => v,
        None => {
            return Err(IqError::SidecarField(String::from_str("rf.sample_format")));
        },
    };
    Ok(
        RfSection {
            sample_rate,
            frequency_hz,
            sample_format,
            channel: f.channel,
            operator: f.operator,
        },
    )
}

/// What is known of a capture.
#[derive(Debug, Clone)]
pub struct IqMetadata {
    /// Sample rate in Hz.
    pub sample_rate: u32,
    /// Centre frequency in Hz.
    pub frequency_hz: u64,
    /// Name of the sample format.
    pub sample_format: String,
    /// Channel label.
    pub channel: Option<String>,
    /// Operator or ensemble label.
    pub operator: Option<String>,
}

impl From<RfSection> for IqMetadata {
    fn from(rf: RfSection) -> (m: Self) {
        IqMetadata {
            sample_rate: rf.sample_rate,
            frequency_hz: rf.frequency_hz,
            sample_format: rf.sample_format,
            channel: rf.channel,
            operator: rf.operator,
        }
    }
}

impl vstd::std_specs::convert::FromSpecImpl<RfSection> for IqMetadata {
    open spec fn obeys_from_spec() -> bool {
        true
    }

    open spec fn from_spec(rf: RfSection) -> IqMetadata {
        IqMetadata {
            sample_rate: rf.sample_rate,
            frequency_hz: rf.frequency_hz,
            sample_format: rf.sample_format,
            channel: rf.channel,
            operator: rf.operator,
        }
    }
}

/// Takes format and metadata from the radio section: an unknown or unsupported
/// format is an error.
pub fn accept_sidecar(rf: RfSection) -> (r: Result<(IqFormat, IqMetadata), IqError>)
    ensures
        match r {
            Ok((format, metadata)) => sidecar_format(uppercase(rf.sample_format@)) == Some(format)
                && sample_bytes(format) is Some && metadata == (IqMetadata {
                sample_rate: rf.sample_rate,
                frequency_hz: rf.frequency_hz,
                sample_format: rf.sample_format,
                channel: rf.channel,
                operator: rf.operator,
            }),
            Err(IqError::SidecarField(name)) => sidecar_format(uppercase(rf.sample_format@)) is None
                && name == rf.sample_format,
            Err(IqError::UnsupportedFormat(_)) => false,
        },
{
    match IqFormat::from_sidecar_str(rf.sample_format.as_str()) {
        None => Err(IqError::SidecarField(rf.sample_format)),
        Some(format) => {
            if format.bytes_per_sample().is_none() {
                return Err(IqError::UnsupportedFormat(format));
            }
            Ok((format, IqMetadata::from(rf)))
        },
    }
}

/// The names of formats in metadata: five are known, and no others.
pub proof fn law_sidecar_names(name: Seq<char>)
    ensures
        sidecar_format("INT16_IQ"@) == Some(IqFormat::Cs16Le),
        sidecar_format("CS8"@) == Some(IqFormat::Cs8),
        sidecar_format("UINT8"@) == Some(IqFormat::Cs8),
        sidecar_format("FLOAT32_IQ"@) == Some(IqFormat::Cf32Le),
        sidecar_format("CF32"@) == Some(IqFormat::Cf32Le),
        name != "INT16_IQ"@ && name != "CS8"@ && name != "UINT8"@ && name != "FLOAT32_IQ"@ && name
            != "CF32"@ ==> sidecar_format(name) is None,
{
    reveal_strlit("INT16_IQ");
    reveal_strlit("CS8");
    reveal_strlit("UINT8");
    reveal_strlit("FLOAT32_IQ");
    reveal_strlit("CF32");
    assert("INT16_IQ"@.len() == 8 && "CS8"@.len() == 3 && "UINT8"@.len() == 5
        && "FLOAT32_IQ"@.len() == 10 && "CF32"@.len() == 4);
}

/// The values of the options: three formats and two ways in, and no others.
pub proof fn law_option_names(name: Seq<char>)
    ensures
        option_format("cs16le"@) == Some(IqFormat::Cs16Le),
        option_format("cs8"@) == Some(IqFormat::Cs8),
        option_format("cf32le"@) == Some(IqFormat::Cf32Le),
        name != "cs16le"@ && name != "cs8"@ && name != "cf32le"@ ==> option_format(name) is None,
        option_ingest("cs16le"@) == Some(IqIngest::Cs16Le3MSPS),
        option_ingest("cu8"@) == Some(IqIngest::Cu82048k),
        name != "cs16le"@ && name != "cu8"@ ==> option_ingest(name) is None,
{
    reveal_strlit("cs16le");
    reveal_strlit("cs8");
    reveal_strlit("cf32le");
    reveal_strlit("cu8");
    assert("cs16le"@.len() == 6 && "cs8"@.len() == 3 && "cf32le"@.len() == 6 && "cu8"@.len() == 3);
    assert("cs16le"@[1] == 's' && "cf32le"@[1] == 'f' && "cu8"@[1] == 'u');
}

} // verus!
