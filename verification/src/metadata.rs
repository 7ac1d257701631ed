//! What the library reads of an image file's metadata, and how it turns it
//! into an image's timestamp and position.

use crate::cluster::{Coordinate, Image};
use std::path::PathBuf;
use vstd::prelude::*;

verus! {

/// The value of one metadata field, as far as the library reads it.
#[derive(Debug)]
pub enum TagValue {
    /// Text: one string of bytes for each line of the field.
    Ascii(Vec<Vec<u8>>),
    /// A value of any other kind.
    Other,
}

/// The fields of an image file's primary metadata that the library reads.
/// A field that the file does not have is `None`.
#[derive(Debug)]
pub struct Metadata {
    /// When the file was last changed.
    pub date_time: Option<TagValue>,
    /// When the picture was taken.
    pub date_time_original: Option<TagValue>,
    /// The latitude in decimal degrees, as a binary64 bit pattern.
    pub gps_latitude: Option<u64>,
    /// The longitude in decimal degrees, as a binary64 bit pattern.
    pub gps_longitude: Option<u64>,
}

/// Why an image file was passed over.
#[derive(Clone, Copy, Debug, PartialEq, Eq, Structural)]
pub enum UnreadableItem {
    /// The file holds no metadata that could be read.
    UnknownFormat,
    /// A date field holds text without a first line.
    EmptyDate,
    /// A date field's first line is no date and time of day.
    MalformedDate,
}

/// The form of a date and time of day in image metadata: year, month and
/// day with colons between them, a space, then hour, minute and second.
pub const DATE_TIME_FORMAT: &'static str = "%Y:%m:%d %H:%M:%S";

/// What `chrono::NaiveDateTime::parse_from_str` makes of `text` under the
/// format `format`, as seconds since 1970-01-01 00:00:00: `None` where it
/// rejects the text.
pub uninterp spec fn parsed_seconds(text: Seq<char>, format: Seq<char>) -> Option<i64>;

/// Reads a date and time of day with `chrono::NaiveDateTime::parse_from_str`
/// and counts its seconds since 1970-01-01 00:00:00 with
/// `chrono::DateTime::timestamp`. Nothing is claimed of the outcome for a
/// given text but that it depends on text and format alone.
#[verifier::external_body]
fn parse_seconds(text: &str, format: &str) -> (seconds: Option<i64>)
    ensures
        seconds == parsed_seconds(text@, format@),
{
    match chrono::NaiveDateTime::parse_from_str(text, format) {
        Ok(moment) => Some(moment.and_utc().timestamp()),
        Err(_) => None,
    }
}

/// `String::push` appends one character to the text.
#[verifier::external_body]
fn push_char(text: &mut String, letter: char)
    ensures
        final(text)@ == old(text)@.push(letter),
{
    text.push(letter)
}

/// The text whose characters have the bytes' values.
pub open spec fn text_of(bytes: Seq<u8>) -> Seq<char> {
    bytes.map_values(|byte: u8| byte as char)
}

/// Reads bytes as text, each byte as the character of its value.
fn read_text(bytes: &Vec<u8>) -> (text: String)
    ensures
        text@ == text_of(bytes@),
{
    let mut text = String::new();
    let mut k: usize = 0;
    while k < bytes.len()
        invariant
            k <= bytes.len(),
            text@ == text_of(bytes@.take(k as int)),
        decreases bytes.len() - k,
    {
        push_char(&mut text, bytes[k] as char);
        assert(bytes@.take(k as int + 1) =~= bytes@.take(k as int).push(bytes@[k as int]));
        k += 1;
        assert(text@ =~= text_of(bytes@.take(k as int)));
    }
    assert(bytes@.take(k as int) =~= bytes@);
    text
}

/// What a date field gives, given what its first line was read as: a line
/// that was read gives its seconds, and one that was rejected makes the
/// image unreadable.
pub open spec fn spec_accept(parsed: Option<i64>) -> Result<Option<i64>, UnreadableItem> {
    match parsed {
        Some(seconds) => Ok(Some(seconds)),
        None => Err(UnreadableItem::MalformedDate),
    }
}

/// What a date field gives, given what its first line was read as.
#[verifier::when_used_as_spec(spec_accept)]
pub fn accept(parsed: Option<i64>) -> (moment: Result<Option<i64>, UnreadableItem>)
    ensures
        moment == spec_accept(parsed),
{
    match parsed {
        Some(seconds) => Ok(Some(seconds)),
        None => Err(UnreadableItem::MalformedDate),
    }
}

/// The moment that a date field stands for: the seconds that its first line
/// reads as. A field that is no text stands for none.
pub open spec fn moment_of(value: TagValue) -> Result<Option<i64>, UnreadableItem> {
    match value {
        TagValue::Ascii(lines) => if lines@.len() == 0 {
            Err(UnreadableItem::EmptyDate)
        } else {
            spec_accept(parsed_seconds(text_of(lines@[0]@), DATE_TIME_FORMAT@))
        },
        TagValue::Other => Ok(None),
    }
}

/// The date field that an image's timestamp is read from: the date of the
/// last change where the file has one, else the date of the picture.
pub open spec fn date_field(exif: Metadata) -> Option<TagValue> {
    match exif.date_time {
        Some(value) => Some(value),
        None => exif.date_time_original,
    }
}

/// The timestamp of an image after it has been read from the metadata.
pub open spec fn timestamp_from(known: Option<i64>, exif: Metadata) -> Result<
    Option<i64>,
    UnreadableItem,
> {
    match known {
        Some(seconds) => Ok(Some(seconds)),
        None => match date_field(exif) {
            Some(value) => moment_of(value),
            None => Ok(None),
        },
    }
}

/// The position of an image after it has been read from the metadata: one
/// that the image has stays; else it takes the metadata's, where that holds
/// both ordinates.
pub open spec fn location_from(known: Option<Coordinate>, exif: Metadata) -> Option<Coordinate> {
    match known {
        Some(point) => Some(point),
        None => match (exif.gps_latitude, exif.gps_longitude) {
            (Some(latitude), Some(longitude)) => Some(Coordinate { latitude, longitude }),
            _ => None,
        },
    }
}

/// The image that a file's metadata describes.
pub open spec fn image_from(path: PathBuf, exif: Metadata) -> Result<Image, UnreadableItem> {
    match timestamp_from(None, exif) {
        Ok(timestamp) => Ok(Image { path, timestamp, location: location_from(None, exif) }),
        Err(why) => Err(why),
    }
}

impl Image {
    /// The image of the file at `path`, with the timestamp and the position
    /// that the file's metadata gives.
    pub fn read(path: PathBuf, exif: &Metadata) -> (read: Result<Image, UnreadableItem>)
        ensures
            read == image_from(path, *exif),
    {
        let mut image = Image { path, timestamp: None, location: None };
        match image.update_timestamp(exif) {
            Ok(()) => {
                image.update_location(exif);
                Ok(image)
            },
            Err(why) => Err(why),
        }
    }

    /// Sets the timestamp from a date field.
    fn update_timestamp_internals(&mut self, time: &TagValue) -> (read: Result<(), UnreadableItem>)
        ensures
            final(self).path == old(self).path,
            final(self).location == old(self).location,
            match moment_of(*time) {
                Ok(Some(seconds)) => read is Ok && final(self).timestamp == Some(seconds),
                Ok(None) => read is Ok && final(self).timestamp == old(self).timestamp,
                Err(why) => read == Err::<(), UnreadableItem>(why)
                    && final(self).timestamp == old(self).timestamp,
            },
    {
        let moment = match time {
            TagValue::Ascii(lines) => {
                if lines.len() == 0 {
                    return Err(UnreadableItem::EmptyDate);
                }
                let text = read_text(&lines[0]);
                accept(parse_seconds(text.as_str(), DATE_TIME_FORMAT))
            },
            TagValue::Other => Ok(None),
        };
        match moment {
            Ok(Some(seconds)) => {
                self.timestamp = Some(seconds);
                Ok(())
            },
            Ok(None) => Ok(()),
            Err(why) => Err(why),
        }
    }

    /// Gives the image a timestamp from the metadata, unless it has one.
    pub fn update_timestamp(&mut self, exif: &Metadata) -> (read: Result<(), UnreadableItem>)
        ensures
            final(self).path == old(self).path,
            final(self).location == old(self).location,
            match timestamp_from(old(self).timestamp, *exif) {
                Ok(moment) => read is Ok && final(self).timestamp == moment,
                Err(why) => read == Err::<(), UnreadableItem>(why)
                    && final(self).timestamp == old(self).timestamp,
            },
    {
        if self.timestamp.is_none() {
            match &exif.date_time {
                Some(value) => {
                    return self.update_timestamp_internals(value);
                },
                None => match &exif.date_time_original {
                    Some(value) => {
                        return self.update_timestamp_internals(value);
                    },
                    None => {},
                },
            }
        }
        Ok(())
    }

    /// Gives the image a position from the metadata, unless it has one.
    pub fn update_location(&mut self, exif: &Metadata)
        ensures
            final(self).path == old(self).path,
            final(self).timestamp == old(self).timestamp,
            final(self).location == location_from(old(self).location, *exif),
    {
        if self.location.is_none() {
            if let Some(latitude) = exif.gps_latitude {
                if let Some(longitude) = exif.gps_longitude {
                    self.location = Some(Coordinate::new(latitude, longitude));
                }
            }
        }
    }
}

} // verus!
