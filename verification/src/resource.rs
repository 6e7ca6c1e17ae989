//! The records of the catalog and the small types they are made of.

use vstd::prelude::*;
use vstd::string::*;
use crate::bibtex::BibtexType;
use crate::json::{json_string_value, read_json_string};
use crate::table::{place_of, Table};
use crate::text::{join, join_text, pad_decimal, read_decimal, same_text, signed_decimal, split, split_text, texts, zero_padded};

verus! {

/// The top-level type of a media type.
#[derive(Debug, Clone, Copy, Hash, PartialEq, Eq, Structural)]
pub enum MediaPrefix {
    Application,
    Audio,
    Image,
    Message,
    Multipart,
    Text,
    Video,
    Font,
    Example,
    Model,
}

/// The lower-case name under which a top-level type is written.
pub open spec fn prefix_name(prefix: MediaPrefix) -> Seq<char> {
    match prefix {
        MediaPrefix::Application => "application"@,
        MediaPrefix::Audio => "audio"@,
        MediaPrefix::Image => "image"@,
        MediaPrefix::Message => "message"@,
        MediaPrefix::Multipart => "multipart"@,
        MediaPrefix::Text => "text"@,
        MediaPrefix::Video => "video"@,
        MediaPrefix::Font => "font"@,
        MediaPrefix::Example => "example"@,
        MediaPrefix::Model => "model"@,
    }
}

/// The top-level type that `name` names, if it names one.
pub open spec fn prefix_named(name: Seq<char>) -> Option<MediaPrefix> {
    if name == "application"@ {
        Some(MediaPrefix::Application)
    } else if name == "audio"@ {
        Some(MediaPrefix::Audio)
    } else if name == "image"@ {
        Some(MediaPrefix::Image)
    } else if name == "message"@ {
        Some(MediaPrefix::Message)
    } else if name == "multipart"@ {
        Some(MediaPrefix::Multipart)
    } else if name == "text"@ {
        Some(MediaPrefix::Text)
    } else if name == "video"@ {
        Some(MediaPrefix::Video)
    } else if name == "font"@ {
        Some(MediaPrefix::Font)
    } else if name == "example"@ {
        Some(MediaPrefix::Example)
    } else if name == "model"@ {
        Some(MediaPrefix::Model)
    } else {
        None
    }
}

impl MediaPrefix {
    /// The lower-case name of the top-level type.
    pub fn name(&self) -> (name: &'static str)
        ensures
            name@ == prefix_name(*self),
    {
        match self {
            MediaPrefix::Application => "application",
            MediaPrefix::Audio => "audio",
            MediaPrefix::Image => "image",
            MediaPrefix::Message => "message",
            MediaPrefix::Multipart => "multipart",
            MediaPrefix::Text => "text",
            MediaPrefix::Video => "video",
            MediaPrefix::Font => "font",
            MediaPrefix::Example => "example",
            MediaPrefix::Model => "model",
        }
    }

    /// The top-level type with the given lower-case name.
    pub fn from_name(name: &str) -> (prefix: Option<MediaPrefix>)
        ensures
            prefix == prefix_named(name@),
    {
        if same_text(name, "application") {
            Some(MediaPrefix::Application)
        } else if same_text(name, "audio") {
            Some(MediaPrefix::Audio)
        } else if same_text(name, "image") {
            Some(MediaPrefix::Image)
        } else if same_text(name, "message") {
            Some(MediaPrefix::Message)
        } else if same_text(name, "multipart") {
            Some(MediaPrefix::Multipart)
        } else if same_text(name, "text") {
            Some(MediaPrefix::Text)
        } else if same_text(name, "video") {
            Some(MediaPrefix::Video)
        } else if same_text(name, "font") {
            Some(MediaPrefix::Font)
        } else if same_text(name, "example") {
            Some(MediaPrefix::Example)
        } else if same_text(name, "model") {
            Some(MediaPrefix::Model)
        } else {
            None
        }
    }
}

/// Media (formerly MIME) type.
#[derive(Debug, Hash, PartialEq, Eq)]
pub struct MediaType {
    prefix: MediaPrefix,
    subtype: String,
}

/// What a media type is: its top-level type and the text of its subtype.
pub struct MediaTypeView {
    pub prefix: MediaPrefix,
    pub subtype: Seq<char>,
}

impl View for MediaType {
    type V = MediaTypeView;

    closed spec fn view(&self) -> MediaTypeView {
        MediaTypeView { prefix: self.prefix, subtype: self.subtype@ }
    }
}

impl DeepView for MediaType {
    type V = MediaTypeView;

    open spec fn deep_view(&self) -> MediaTypeView {
        self@
    }
}

/// Why a text is no media type.
#[derive(Debug)]
pub struct MediaTypeParseError {
    details: String,
}

impl MediaTypeParseError {
    /// The text of the error.
    pub closed spec fn message(&self) -> Seq<char> {
        self.details@
    }

    pub fn new(msg: &str) -> (e: MediaTypeParseError)
        ensures
            e.message() == msg@,
    {
        MediaTypeParseError { details: msg.to_owned() }
    }

    /// The text of the error, as it is shown.
    pub fn to_string(&self) -> (s: String)
        ensures
            s@ == self.message(),
    {
        self.details.clone()
    }

    pub fn description(&self) -> (s: &str)
        ensures
            s@ == self.message(),
    {
        self.details.as_str()
    }
}

/// `name` between double quotes: the JSON string that writes `name` where
/// `name` holds nothing that JSON escapes.
pub open spec fn quoted(name: Seq<char>) -> Seq<char> {
    seq!['"'] + name + seq!['"']
}

/// The media type that a decoded top-level name and a subtype make.
pub open spec fn media_type_from(decoded: Option<Seq<char>>, subtype: Seq<char>) -> Result<
    MediaTypeView,
    Seq<char>,
> {
    match decoded {
        Some(name) => match prefix_named(name) {
            Some(prefix) => Ok(MediaTypeView { prefix, subtype }),
            None => Err("A media type must start with a registered top-level type."@),
        },
        None => Err("A media type must start with a registered top-level type."@),
    }
}

/// The media type that `s` writes: a top-level type and a subtype with one
/// `/` between them. The top-level type is read as the content of a JSON
/// string.
pub open spec fn media_type_of(s: Seq<char>) -> Result<MediaTypeView, Seq<char>> {
    let parts = split_text(s, '/');
    if parts.len() != 2 {
        Err("A media type must contain a type and subtype."@)
    } else {
        media_type_from(json_string_value(quoted(parts[0])), parts[1])
    }
}

/// The text of a media type: the name of its top-level type, `/`, its
/// subtype.
pub open spec fn media_type_text(m: MediaTypeView) -> Seq<char> {
    prefix_name(m.prefix) + seq!['/'] + m.subtype
}

/// Whether a result of parsing stands for the result `expected` over views.
pub open spec fn media_type_result(
    got: Result<MediaType, MediaTypeParseError>,
    expected: Result<MediaTypeView, Seq<char>>,
) -> bool {
    match got {
        Ok(m) => expected == Ok::<MediaTypeView, Seq<char>>(m@),
        Err(e) => expected == Err::<MediaTypeView, Seq<char>>(e.message()),
    }
}

impl MediaType {
    pub fn prefix(&self) -> (prefix: MediaPrefix)
        ensures
            prefix == self@.prefix,
    {
        self.prefix
    }

    pub fn subtype(&self) -> (subtype: &str)
        ensures
            subtype@ == self@.subtype,
    {
        self.subtype.as_str()
    }

    /// The media type with the top-level type that `decoded` names and the
    /// given subtype; an error where `decoded` names none.
    pub fn from_parts(decoded: Option<String>, subtype: String) -> (parsed: Result<
        MediaType,
        MediaTypeParseError,
    >)
        ensures
            media_type_result(
                parsed,
                media_type_from(
                    match decoded {
                        Some(name) => Some(name@),
                        None => None,
                    },
                    subtype@,
                ),
            ),
    {
        let prefix = match &decoded {
            Some(name) => MediaPrefix::from_name(name.as_str()),
            None => None,
        };
        match prefix {
            Some(prefix) => Ok(MediaType { prefix, subtype }),
            None => Err(
                MediaTypeParseError::new(
                    "A media type must start with a registered top-level type.",
                ),
            ),
        }
    }

    /// Reads a media type such as `text/html`.
    pub fn try_from(s: &str) -> (parsed: Result<MediaType, MediaTypeParseError>)
        ensures
            media_type_result(parsed, media_type_of(s@)),
    {
        let mut parts = split(s, '/');
        if parts.len() != 2 {
            return Err(MediaTypeParseError::new("A media type must contain a type and subtype."));
        }
        assert(texts(parts@)[0] == parts@[0]@);
        assert(texts(parts@)[1] == parts@[1]@);
        let subtype = parts.pop().unwrap();
        let name = parts.pop().unwrap();
        let mut text = String::new();
        text.push('"');
        text.append(name.as_str());
        text.push('"');
        assert(text@ == quoted(name@));
        MediaType::from_parts(read_json_string(text.as_str()), subtype)
    }

    /// The media type as text, such as `text/html`.
    pub fn text(&self) -> (out: String)
        ensures
            out@ == media_type_text(self@),
    {
        let mut out = self.prefix.name().to_owned();
        out.push('/');
        out.append(self.subtype.as_str());
        out
    }
}

impl Clone for MediaType {
    fn clone(&self) -> (copy: Self)
        ensures
            copy == *self,
    {
        MediaType { prefix: self.prefix, subtype: self.subtype.clone() }
    }
}

/// Classifies a document type according to an extension and media type.
#[derive(Debug, Hash, PartialEq, Eq)]
pub struct DocumentType {
    pub extension: String,
    pub mime: Option<MediaType>,
}

/// What a document type is: the text of its extension and its media type.
pub struct DocumentTypeView {
    pub extension: Seq<char>,
    pub mime: Option<MediaTypeView>,
}

impl View for DocumentType {
    type V = DocumentTypeView;

    open spec fn view(&self) -> DocumentTypeView {
        DocumentTypeView {
            extension: self.extension@,
            mime: match self.mime {
                Some(m) => Some(m@),
                None => None,
            },
        }
    }
}

impl Clone for DocumentType {
    fn clone(&self) -> (copy: Self)
        ensures
            copy == *self,
    {
        DocumentType {
            extension: self.extension.clone(),
            mime: match &self.mime {
                Some(m) => Some(m.clone()),
                None => None,
            },
        }
    }
}

/// A date with as much of a time of day as is known. A field is only set
/// where every field before it is.
#[derive(Debug, Clone, Copy, Hash, PartialEq, Eq, PartialOrd)]
pub struct DateTime {
    pub year: Option<i32>,
    pub month: Option<i32>,
    pub day: Option<i32>,
    pub hour: Option<i32>,
    pub minute: Option<i32>,
    pub second: Option<i32>,
}

/// Why a text is no date.
#[derive(Debug)]
pub struct DateTimeParseError {
    details: String,
}

impl DateTimeParseError {
    /// The text of the error.
    pub closed spec fn message(&self) -> Seq<char> {
        self.details@
    }

    pub fn new(msg: &str) -> (e: DateTimeParseError)
        ensures
            e.message() == msg@,
    {
        DateTimeParseError { details: msg.to_owned() }
    }

    /// The text of the error, as it is shown.
    pub fn to_string(&self) -> (s: String)
        ensures
            s@ == self.message(),
    {
        self.details.clone()
    }

    pub fn description(&self) -> (s: &str)
        ensures
            s@ == self.message(),
    {
        self.details.as_str()
    }
}

/// What reading one field of a date gives: the number, or the reason why
/// there is none.
pub enum DateField {
    Value(int),
    Malformed,
    OutOfRange,
}

/// The field that the bytes from `from` up to `to` write, which has to lie
/// between `low` and `high`.
pub open spec fn date_field(b: Seq<u8>, from: int, to: int, low: int, high: int) -> DateField {
    match signed_decimal(b.subrange(from, to)) {
        None => DateField::Malformed,
        Some(v) => if low <= v <= high {
            DateField::Value(v)
        } else {
            DateField::OutOfRange
        },
    }
}

/// The date without any field.
pub open spec fn no_date() -> DateTime {
    DateTime { year: None, month: None, day: None, hour: None, minute: None, second: None }
}

/// The error for a field that is not written as a number.
pub open spec fn malformed_date() -> Seq<char> {
    "date and time fields must be numbers"@
}

/// The date that the bytes `b` write in the form `YYYY-MM-DDThh:mm:ss`, of
/// which any end may be missing. The fields stand at fixed places; the byte
/// between two fields is not looked at, and what follows the seconds is
/// ignored. A field that is begun but not complete is ignored with all that
/// follows it.
pub open spec fn date_time_of(b: Seq<u8>) -> Result<DateTime, Seq<char>> {
    if b.len() < 4 {
        Ok(no_date())
    } else {
        match date_field(b, 0, 4, i32::MIN as int, i32::MAX as int) {
            DateField::Value(year) => date_from_month(
                b,
                DateTime { year: Some(year as i32), ..no_date() },
            ),
            _ => Err(malformed_date()),
        }
    }
}

/// The date `d` completed by the month and what follows it in `b`.
pub open spec fn date_from_month(b: Seq<u8>, d: DateTime) -> Result<DateTime, Seq<char>> {
    if b.len() < 7 {
        Ok(d)
    } else {
        match date_field(b, 5, 7, 1, 12) {
            DateField::Value(month) => date_from_day(b, DateTime { month: Some(month as i32), ..d }),
            DateField::Malformed => Err(malformed_date()),
            DateField::OutOfRange => Err("month must be between 1 and 12"@),
        }
    }
}

/// The date `d` completed by the day and what follows it in `b`.
pub open spec fn date_from_day(b: Seq<u8>, d: DateTime) -> Result<DateTime, Seq<char>> {
    if b.len() < 10 {
        Ok(d)
    } else {
        match date_field(b, 8, 10, 1, 31) {
            DateField::Value(day) => date_from_hour(b, DateTime { day: Some(day as i32), ..d }),
            DateField::Malformed => Err(malformed_date()),
            DateField::OutOfRange => Err("day must be between 1 and 31"@),
        }
    }
}

/// The date `d` completed by the hour and what follows it in `b`.
pub open spec fn date_from_hour(b: Seq<u8>, d: DateTime) -> Result<DateTime, Seq<char>> {
    if b.len() < 13 {
        Ok(d)
    } else {
        match date_field(b, 11, 13, 0, 23) {
            DateField::Value(hour) => date_from_minute(b, DateTime { hour: Some(hour as i32), ..d }),
            DateField::Malformed => Err(malformed_date()),
            DateField::OutOfRange => Err("hour must be between 0 and 23"@),
        }
    }
}

/// The date `d` completed by the minute and what follows it in `b`.
pub open spec fn date_from_minute(b: Seq<u8>, d: DateTime) -> Result<DateTime, Seq<char>> {
    if b.len() < 16 {
        Ok(d)
    } else {
        match date_field(b, 14, 16, 0, 59) {
            DateField::Value(minute) => date_from_second(
                b,
                DateTime { minute: Some(minute as i32), ..d },
            ),
            DateField::Malformed => Err(malformed_date()),
            DateField::OutOfRange => Err("minute must be between 0 and 59"@),
        }
    }
}

/// The date `d` completed by the second in `b`.
pub open spec fn date_from_second(b: Seq<u8>, d: DateTime) -> Result<DateTime, Seq<char>> {
    if b.len() < 19 {
        Ok(d)
    } else {
        match date_field(b, 17, 19, 0, 59) {
            DateField::Value(second) => Ok(DateTime { second: Some(second as i32), ..d }),
            DateField::Malformed => Err(malformed_date()),
            DateField::OutOfRange => Err("second must be between 0 and 59"@),
        }
    }
}

/// The text of a date: its fields as far as they are set, the year on four
/// digits and the others on two.
pub open spec fn date_time_text(d: DateTime) -> Seq<char> {
    match d.year {
        None => Seq::<char>::empty(),
        Some(y) => {
            let year = zero_padded(y as int, 4);
            match d.month {
                None => year,
                Some(m) => {
                    let month = year + seq!['-'] + zero_padded(m as int, 2);
                    match d.day {
                        None => month,
                        Some(dd) => {
                            let day = month + seq!['-'] + zero_padded(dd as int, 2);
                            match d.hour {
                                None => day,
                                Some(h) => {
                                    let hour = day + seq!['T'] + zero_padded(h as int, 2);
                                    match d.minute {
                                        None => hour,
                                        Some(mi) => {
                                            let minute = hour + seq![':'] + zero_padded(
                                                mi as int,
                                                2,
                                            );
                                            match d.second {
                                                None => minute,
                                                Some(sec) => minute + seq![':'] + zero_padded(
                                                    sec as int,
                                                    2,
                                                ),
                                            }
                                        },
                                    }
                                },
                            }
                        },
                    }
                },
            }
        },
    }
}

/// Whether a result of parsing stands for the result `expected`.
pub open spec fn date_time_result(
    got: Result<DateTime, DateTimeParseError>,
    expected: Result<DateTime, Seq<char>>,
) -> bool {
    match got {
        Ok(d) => expected == Ok::<DateTime, Seq<char>>(d),
        Err(e) => expected == Err::<DateTime, Seq<char>>(e.message()),
    }
}

/// Reads one field of a date and says which error it gives, if any.
fn read_date_field(bytes: &[u8], from: usize, to: usize, low: i32, high: i32, range: &str) -> (field:
    Result<i32, DateTimeParseError>)
    requires
        from <= to <= bytes@.len(),
        to - from <= 9,
    ensures
        match field {
            Ok(v) => date_field(bytes@, from as int, to as int, low as int, high as int)
                == DateField::Value(v as int),
            Err(e) => match date_field(bytes@, from as int, to as int, low as int, high as int) {
                DateField::Value(_) => false,
                DateField::Malformed => e.message() == malformed_date(),
                DateField::OutOfRange => e.message() == range@,
            },
        },
{
    match read_decimal(bytes, from, to) {
        None => Err(DateTimeParseError::new("date and time fields must be numbers")),
        Some(v) => if v < low || v > high {
            Err(DateTimeParseError::new(range))
        } else {
            Ok(v)
        },
    }
}

impl DateTime {
    /// The date without any field.
    pub fn new() -> (d: DateTime)
        ensures
            d == no_date(),
    {
        DateTime { year: None, month: None, day: None, hour: None, minute: None, second: None }
    }

    /// Reads a date such as `1999-12-31T23:59:59`, or a beginning of one.
    pub fn try_from(s: &str) -> (parsed: Result<DateTime, DateTimeParseError>)
        ensures
            date_time_result(parsed, date_time_of(s.spec_bytes())),
    {
        let mut d = DateTime::new();
        let bytes = s.as_bytes();
        let len = bytes.len();
        if len < 4 {
            return Ok(d);
        }
        match read_date_field(bytes, 0, 4, i32::MIN, i32::MAX, "") {
            Ok(year) => {
                d.year = Some(year);
            },
            Err(e) => {
                return Err(e);
            },
        }
        if len < 7 {
            return Ok(d);
        }
        match read_date_field(bytes, 5, 7, 1, 12, "month must be between 1 and 12") {
            Ok(month) => {
                d.month = Some(month);
            },
            Err(e) => {
                return Err(e);
            },
        }
        if len < 10 {
            return Ok(d);
        }
        match read_date_field(bytes, 8, 10, 1, 31, "day must be between 1 and 31") {
            Ok(day) => {
                d.day = Some(day);
            },
            Err(e) => {
                return Err(e);
            },
        }
        if len < 13 {
            return Ok(d);
        }
        match read_date_field(bytes, 11, 13, 0, 23, "hour must be between 0 and 23") {
            Ok(hour) => {
                d.hour = Some(hour);
            },
            Err(e) => {
                return Err(e);
            },
        }
        if len < 16 {
            return Ok(d);
        }
        match read_date_field(bytes, 14, 16, 0, 59, "minute must be between 0 and 59") {
            Ok(minute) => {
                d.minute = Some(minute);
            },
            Err(e) => {
                return Err(e);
            },
        }
        if len < 19 {
            return Ok(d);
        }
        match read_date_field(bytes, 17, 19, 0, 59, "second must be between 0 and 59") {
            Ok(second) => {
                d.second = Some(second);
            },
            Err(e) => {
                return Err(e);
            },
        }
        Ok(d)
    }

    /// The date as text, such as `1999-12-31T23:59`.
    pub fn text(&self) -> (out: String)
        ensures
            out@ == date_time_text(*self),
    {
        let mut out = String::new();
        let year = match self.year {
            Some(y) => y,
            None => {
                return out;
            },
        };
        out.append(pad_decimal(year, 4).as_str());
        let month = match self.month {
            Some(m) => m,
            None => {
                return out;
            },
        };
        out.push('-');
        out.append(pad_decimal(month, 2).as_str());
        let day = match self.day {
            Some(d) => d,
            None => {
                return out;
            },
        };
        out.push('-');
        out.append(pad_decimal(day, 2).as_str());
        let hour = match self.hour {
            Some(h) => h,
            None => {
                return out;
            },
        };
        out.push('T');
        out.append(pad_decimal(hour, 2).as_str());
        let minute = match self.minute {
            Some(m) => m,
            None => {
                return out;
            },
        };
        out.push(':');
        out.append(pad_decimal(minute, 2).as_str());
        let second = match self.second {
            Some(s) => s,
            None => {
                return out;
            },
        };
        out.push(':');
        out.append(pad_decimal(second, 2).as_str());
        out
    }
}

/// The name of a person.
#[derive(Debug, Hash, PartialEq, Eq)]
pub struct Name {
    pub first: Option<String>,
    pub middle: Option<String>,
    pub last: Option<String>,
}

/// What a name is: the texts of its parts.
pub struct NameView {
    pub first: Option<Seq<char>>,
    pub middle: Option<Seq<char>>,
    pub last: Option<Seq<char>>,
}

/// The text of a string that may be missing.
pub open spec fn opt_text(s: Option<String>) -> Option<Seq<char>> {
    match s {
        Some(t) => Some(t@),
        None => None,
    }
}

impl View for Name {
    type V = NameView;

    open spec fn view(&self) -> NameView {
        NameView {
            first: opt_text(self.first),
            middle: opt_text(self.middle),
            last: opt_text(self.last),
        }
    }
}

impl DeepView for Name {
    type V = NameView;

    open spec fn deep_view(&self) -> NameView {
        self@
    }
}

/// A copy of a string that may be missing.
pub fn copy_opt_text(s: &Option<String>) -> (copy: Option<String>)
    ensures
        copy == *s,
{
    match s {
        Some(t) => Some(t.clone()),
        None => None,
    }
}

impl Clone for Name {
    fn clone(&self) -> (copy: Self)
        ensures
            copy == *self,
    {
        Name {
            first: copy_opt_text(&self.first),
            middle: copy_opt_text(&self.middle),
            last: copy_opt_text(&self.last),
        }
    }
}

/// Why a text is no name.
#[derive(Debug)]
pub struct NameParseError {
    details: String,
}

impl NameParseError {
    /// The text of the error.
    pub closed spec fn message(&self) -> Seq<char> {
        self.details@
    }

    pub fn new(msg: &str) -> (e: NameParseError)
        ensures
            e.message() == msg@,
    {
        NameParseError { details: msg.to_owned() }
    }

    /// The text of the error, as it is shown.
    pub fn to_string(&self) -> (s: String)
        ensures
            s@ == self.message(),
    {
        self.details.clone()
    }

    pub fn description(&self) -> (s: &str)
        ensures
            s@ == self.message(),
    {
        self.details.as_str()
    }
}

/// The name without any part.
pub open spec fn no_name() -> NameView {
    NameView { first: None, middle: None, last: None }
}

/// The name that `s` writes, its parts parted by single spaces: one part is
/// a last name, two are a first and a last name, three a first, a middle and
/// a last name. More parts are no name.
pub open spec fn name_of(s: Seq<char>) -> Result<NameView, Seq<char>> {
    let parts = split_text(s, ' ');
    if parts.len() > 3 {
        Err("A name can only contain a maximum of 3 parts."@)
    } else if parts.len() == 3 {
        Ok(NameView { first: Some(parts[0]), middle: Some(parts[1]), last: Some(parts[2]) })
    } else if parts.len() == 2 {
        Ok(NameView { first: Some(parts[0]), middle: None, last: Some(parts[1]) })
    } else if parts.len() == 1 {
        Ok(NameView { first: None, middle: None, last: Some(parts[0]) })
    } else {
        Ok(no_name())
    }
}

/// The text of a name: its parts with single spaces between them. A name
/// without a last name has no text, and a middle name only shows beside a
/// first name.
pub open spec fn name_text(n: NameView) -> Seq<char> {
    match n.last {
        Some(last) => match n.first {
            Some(first) => match n.middle {
                Some(middle) => first + seq![' '] + middle + seq![' '] + last,
                None => first + seq![' '] + last,
            },
            None => last,
        },
        None => Seq::<char>::empty(),
    }
}

/// Whether a result of parsing stands for the result `expected` over views.
pub open spec fn name_result(got: Result<Name, NameParseError>, expected: Result<NameView, Seq<char>>) -> bool {
    match got {
        Ok(n) => expected == Ok::<NameView, Seq<char>>(n@),
        Err(e) => expected == Err::<NameView, Seq<char>>(e.message()),
    }
}

impl Name {
    /// The name without any part.
    pub fn new() -> (n: Name)
        ensures
            n@ == no_name(),
    {
        Name { first: None, middle: None, last: None }
    }

    /// Reads a name such as `John David Jackson`.
    pub fn try_from(s: &str) -> (parsed: Result<Name, NameParseError>)
        ensures
            name_result(parsed, name_of(s@)),
    {
        let mut name = Name::new();
        let mut parts = split(s, ' ');
        let ghost all = texts(parts@);
        assert(forall|i: int| 0 <= i < parts@.len() ==> all[i] == (#[trigger] parts@[i])@);
        if parts.len() > 3 {
            return Err(NameParseError::new("A name can only contain a maximum of 3 parts."));
        } else if parts.len() == 3 {
            name.last = parts.pop();
            name.middle = parts.pop();
            name.first = parts.pop();
        } else if parts.len() == 2 {
            name.last = parts.pop();
            name.first = parts.pop();
        } else {
            name.last = parts.pop();
        }
        Ok(name)
    }

    /// The name as text, such as `John David Jackson`.
    pub fn text(&self) -> (out: String)
        ensures
            out@ == name_text(self@),
    {
        let mut out = String::new();
        match &self.last {
            Some(last) => {
                match &self.first {
                    Some(first) => {
                        out.append(first.as_str());
                        out.push(' ');
                        match &self.middle {
                            Some(middle) => {
                                out.append(middle.as_str());
                                out.push(' ');
                            },
                            None => {},
                        }
                    },
                    None => {},
                }
                out.append(last.as_str());
            },
            None => {},
        }
        out
    }
}

/// The texts of a list of names.
pub open spec fn name_texts(names: Seq<NameView>) -> Seq<Seq<char>> {
    names.map_values(|n: NameView| name_text(n))
}

/// The views of a list of names.
pub open spec fn name_views(names: Seq<Name>) -> Seq<NameView> {
    names.map_values(|n: Name| n@)
}

/// The texts of the names, one string each.
pub fn names_as_text(names: &Vec<Name>) -> (out: Vec<String>)
    ensures
        texts(out@) == name_texts(name_views(names@)),
{
    let mut out: Vec<String> = Vec::new();
    let mut i: usize = 0;
    while i < names.len()
        invariant
            i <= names.len(),
            out@.len() == i,
            forall|k: int| 0 <= k < i ==> (#[trigger] out@[k])@ == name_text(names@[k]@),
        decreases names.len() - i,
    {
        out.push(names[i].text());
        i += 1;
    }
    assert(texts(out@) =~= name_texts(name_views(names@)));
    out
}

/// A copy of a list of names.
pub fn copy_names(names: &Vec<Name>) -> (copy: Vec<Name>)
    ensures
        name_views(copy@) == name_views(names@),
{
    let mut copy: Vec<Name> = Vec::new();
    let mut i: usize = 0;
    while i < names.len()
        invariant
            i <= names.len(),
            copy@.len() == i,
            forall|k: int| 0 <= k < i ==> #[trigger] copy@[k] == names@[k],
        decreases names.len() - i,
    {
        copy.push(names[i].clone());
        i += 1;
    }
    assert(name_views(copy@) =~= name_views(names@));
    copy
}

/// A copy of a list of strings.
pub fn copy_texts(list: &Vec<String>) -> (copy: Vec<String>)
    ensures
        texts(copy@) == texts(list@),
{
    let mut copy: Vec<String> = Vec::new();
    let mut i: usize = 0;
    while i < list.len()
        invariant
            i <= list.len(),
            copy@.len() == i,
            forall|k: int| 0 <= k < i ==> #[trigger] copy@[k] == list@[k],
        decreases list.len() - i,
    {
        copy.push(list[i].clone());
        i += 1;
    }
    assert(texts(copy@) =~= texts(list@));
    copy
}

/// One unit of library content, a file or a directory, with what is known
/// about it.
#[derive(Debug, Hash, PartialEq, Eq)]
pub struct Resource {
    pub title: String,
    pub subtitle: Option<String>,
    /// All resource authors.
    pub author: Option<Vec<Name>>,
    /// All resource editors.
    pub editor: Option<Vec<Name>>,
    /// When the content last changed: for a publication, the date of
    /// publication.
    pub date: Option<DateTime>,
    pub edition: Option<String>,
    pub version: Option<String>,
    pub publisher: Option<String>,
    /// Organization or institution involved in creation of the resource.
    pub organization: Option<String>,
    /// Journal or magazine in which the resource was published.
    pub journal: Option<String>,
    /// Volume of a journal or multi-volume work.
    pub volume: Option<String>,
    /// The issue number, which need not be a number.
    pub number: Option<String>,
    /// Digital object identifier.
    pub doi: Option<String>,
    pub tags: Option<Vec<String>>,
    /// Document type, which also ties the resource to a file extension.
    pub document: Option<String>,
    pub content: Option<String>,
    /// Where the resource is maintained or was retrieved from, as text.
    pub url: Option<String>,
    /// The digest of the current content.
    pub checksum: String,
    /// All digests the content has had, oldest first. The first one is the
    /// identity of the record, the last one the current digest.
    pub historical_checksums: Vec<String>,
}

/// What a record is, with every string as its text.
pub struct ResourceView {
    pub title: Seq<char>,
    pub subtitle: Option<Seq<char>>,
    pub author: Option<Seq<NameView>>,
    pub editor: Option<Seq<NameView>>,
    pub date: Option<DateTime>,
    pub edition: Option<Seq<char>>,
    pub version: Option<Seq<char>>,
    pub publisher: Option<Seq<char>>,
    pub organization: Option<Seq<char>>,
    pub journal: Option<Seq<char>>,
    pub volume: Option<Seq<char>>,
    pub number: Option<Seq<char>>,
    pub doi: Option<Seq<char>>,
    pub tags: Option<Seq<Seq<char>>>,
    pub document: Option<Seq<char>>,
    pub content: Option<Seq<char>>,
    pub url: Option<Seq<char>>,
    pub checksum: Seq<char>,
    pub historical_checksums: Seq<Seq<char>>,
}

/// The views of a list of names that may be missing.
pub open spec fn opt_names(names: Option<Vec<Name>>) -> Option<Seq<NameView>> {
    match names {
        Some(list) => Some(name_views(list@)),
        None => None,
    }
}

/// The texts of a list of strings that may be missing.
pub open spec fn opt_texts(list: Option<Vec<String>>) -> Option<Seq<Seq<char>>> {
    match list {
        Some(l) => Some(texts(l@)),
        None => None,
    }
}

impl View for Resource {
    type V = ResourceView;

    open spec fn view(&self) -> ResourceView {
        ResourceView {
            title: self.title@,
            subtitle: opt_text(self.subtitle),
            author: opt_names(self.author),
            editor: opt_names(self.editor),
            date: self.date,
            edition: opt_text(self.edition),
            version: opt_text(self.version),
            publisher: opt_text(self.publisher),
            organization: opt_text(self.organization),
            journal: opt_text(self.journal),
            volume: opt_text(self.volume),
            number: opt_text(self.number),
            doi: opt_text(self.doi),
            tags: opt_texts(self.tags),
            document: opt_text(self.document),
            content: opt_text(self.content),
            url: opt_text(self.url),
            checksum: self.checksum@,
            historical_checksums: texts(self.historical_checksums@),
        }
    }
}

impl Clone for Resource {
    fn clone(&self) -> (copy: Self)
        ensures
            copy@ == self@,
    {
        Resource {
            title: self.title.clone(),
            subtitle: copy_opt_text(&self.subtitle),
            author: match &self.author {
                Some(names) => Some(copy_names(names)),
                None => None,
            },
            editor: match &self.editor {
                Some(names) => Some(copy_names(names)),
                None => None,
            },
            date: self.date,
            edition: copy_opt_text(&self.edition),
            version: copy_opt_text(&self.version),
            publisher: copy_opt_text(&self.publisher),
            organization: copy_opt_text(&self.organization),
            journal: copy_opt_text(&self.journal),
            volume: copy_opt_text(&self.volume),
            number: copy_opt_text(&self.number),
            doi: copy_opt_text(&self.doi),
            tags: match &self.tags {
                Some(tags) => Some(copy_texts(tags)),
                None => None,
            },
            document: copy_opt_text(&self.document),
            content: copy_opt_text(&self.content),
            url: copy_opt_text(&self.url),
            checksum: self.checksum.clone(),
            historical_checksums: copy_texts(&self.historical_checksums),
        }
    }
}

/// Whether `name` names a field of a record.
pub open spec fn is_field_name(name: Seq<char>) -> bool {
    ||| name == "title"@
    ||| name == "subtitle"@
    ||| name == "author"@
    ||| name == "editor"@
    ||| name == "date"@
    ||| name == "edition"@
    ||| name == "version"@
    ||| name == "publisher"@
    ||| name == "organization"@
    ||| name == "journal"@
    ||| name == "volume"@
    ||| name == "number"@
    ||| name == "doi"@
    ||| name == "tags"@
    ||| name == "document"@
    ||| name == "content"@
    ||| name == "url"@
    ||| name == "checksum"@
    ||| name == "historical_checksums"@
}

/// The texts with single spaces between them, where there is a list.
pub open spec fn spaced(list: Option<Seq<Seq<char>>>) -> Option<Seq<char>> {
    match list {
        Some(l) => Some(join_text(l, seq![' '])),
        None => None,
    }
}

/// The text of the field `name` of a record: nothing where the field is not
/// set; the items of a list with single spaces between them.
pub open spec fn field_text(r: ResourceView, name: Seq<char>) -> Option<Seq<char>> {
    if name == "title"@ {
        Some(r.title)
    } else if name == "subtitle"@ {
        r.subtitle
    } else if name == "author"@ {
        spaced(
            match r.author {
                Some(names) => Some(name_texts(names)),
                None => None,
            },
        )
    } else if name == "editor"@ {
        spaced(
            match r.editor {
                Some(names) => Some(name_texts(names)),
                None => None,
            },
        )
    } else if name == "date"@ {
        match r.date {
            Some(d) => Some(date_time_text(d)),
            None => None,
        }
    } else if name == "edition"@ {
        r.edition
    } else if name == "version"@ {
        r.version
    } else if name == "publisher"@ {
        r.publisher
    } else if name == "organization"@ {
        r.organization
    } else if name == "journal"@ {
        r.journal
    } else if name == "volume"@ {
        r.volume
    } else if name == "number"@ {
        r.number
    } else if name == "doi"@ {
        r.doi
    } else if name == "tags"@ {
        spaced(r.tags)
    } else if name == "document"@ {
        r.document
    } else if name == "content"@ {
        r.content
    } else if name == "url"@ {
        r.url
    } else if name == "checksum"@ {
        Some(r.checksum)
    } else {
        Some(join_text(r.historical_checksums, seq![' ']))
    }
}

/// The texts of those of the fields `names` that are set, in the order of
/// `names`.
pub open spec fn set_fields(r: ResourceView, names: Seq<Seq<char>>) -> Seq<Seq<char>>
    decreases names.len(),
{
    if names.len() == 0 {
        Seq::<Seq<char>>::empty()
    } else {
        let before = set_fields(r, names.drop_last());
        match field_text(r, names.last()) {
            Some(t) => before.push(t),
            None => before,
        }
    }
}

/// The texts of the field names.
pub open spec fn name_list(fields: Seq<&str>) -> Seq<Seq<char>> {
    fields.map_values(|f: &str| f@)
}

/// The names joined with single spaces.
fn spaced_names(names: &Vec<Name>) -> (out: String)
    ensures
        out@ == join_text(name_texts(name_views(names@)), seq![' ']),
{
    let parts = names_as_text(names);
    let out = join(&parts, " ");
    proof {
        reveal_strlit(" ");
        assert(" "@ =~= seq![' ']);
    }
    out
}

/// The strings joined with single spaces.
fn spaced_texts(list: &Vec<String>) -> (out: String)
    ensures
        out@ == join_text(texts(list@), seq![' ']),
{
    let out = join(list, " ");
    proof {
        reveal_strlit(" ");
        assert(" "@ =~= seq![' ']);
    }
    out
}

impl Resource {
    /// Whether the record's history is in order: it is not empty and ends
    /// with the current digest.
    pub open spec fn wf(&self) -> bool {
        record_wf(self@)
    }

    /// Whether the record's history is in order.
    pub fn is_well_formed(&self) -> (ok: bool)
        ensures
            ok == self.wf(),
    {
        let n = self.historical_checksums.len();
        if n == 0 {
            return false;
        }
        assert(texts(self.historical_checksums@).last() == self.historical_checksums@[n - 1]@);
        self.historical_checksums[n - 1] == self.checksum
    }

    /// The digest that the record had when it was made, which is its
    /// identity in the catalog.
    pub fn original_digest(&self) -> (digest: &str)
        requires
            self.wf(),
        ensures
            digest@ == original_digest(self@),
    {
        assert(texts(self.historical_checksums@)[0] == self.historical_checksums@[0]@);
        self.historical_checksums[0].as_str()
    }

    /// Whether `name` names a field of a record.
    pub fn has_field(name: &str) -> (known: bool)
        ensures
            known == is_field_name(name@),
    {
        same_text(name, "title") || same_text(name, "subtitle") || same_text(name, "author")
            || same_text(name, "editor") || same_text(name, "date") || same_text(name, "edition")
            || same_text(name, "version") || same_text(name, "publisher") || same_text(
            name,
            "organization",
        ) || same_text(name, "journal") || same_text(name, "volume") || same_text(name, "number")
            || same_text(name, "doi") || same_text(name, "tags") || same_text(name, "document")
            || same_text(name, "content") || same_text(name, "url") || same_text(name, "checksum")
            || same_text(name, "historical_checksums")
    }

    /// Return a string representation of a field: nothing where the field is
    /// not set; the items of a list with single spaces between them.
    pub fn field_string(&self, field: &str) -> (out: Option<String>)
        requires
            is_field_name(field@),
        ensures
            opt_text(out) == field_text(self@, field@),
    {
        if same_text(field, "title") {
            Some(self.title.clone())
        } else if same_text(field, "subtitle") {
            copy_opt_text(&self.subtitle)
        } else if same_text(field, "author") {
            match &self.author {
                Some(names) => Some(spaced_names(names)),
                None => None,
            }
        } else if same_text(field, "editor") {
            match &self.editor {
                Some(names) => Some(spaced_names(names)),
                None => None,
            }
        } else if same_text(field, "date") {
            match &self.date {
                Some(d) => Some(d.text()),
                None => None,
            }
        } else if same_text(field, "edition") {
            copy_opt_text(&self.edition)
        } else if same_text(field, "version") {
            copy_opt_text(&self.version)
        } else if same_text(field, "publisher") {
            copy_opt_text(&self.publisher)
        } else if same_text(field, "organization") {
            copy_opt_text(&self.organization)
        } else if same_text(field, "journal") {
            copy_opt_text(&self.journal)
        } else if same_text(field, "volume") {
            copy_opt_text(&self.volume)
        } else if same_text(field, "number") {
            copy_opt_text(&self.number)
        } else if same_text(field, "doi") {
            copy_opt_text(&self.doi)
        } else if same_text(field, "tags") {
            match &self.tags {
                Some(tags) => Some(spaced_texts(tags)),
                None => None,
            }
        } else if same_text(field, "document") {
            copy_opt_text(&self.document)
        } else if same_text(field, "content") {
            copy_opt_text(&self.content)
        } else if same_text(field, "url") {
            copy_opt_text(&self.url)
        } else if same_text(field, "checksum") {
            Some(self.checksum.clone())
        } else {
            Some(spaced_texts(&self.historical_checksums))
        }
    }

    /// Concatenate fields into a single string, using a space as a delimiter
    /// between the fields that are set.
    pub fn concat_fields(&self, fields: Vec<&str>) -> (out: String)
        requires
            forall|i: int| 0 <= i < fields@.len() ==> is_field_name(#[trigger] fields@[i]@),
        ensures
            out@ == join_text(set_fields(self@, name_list(fields@)), seq![' ']),
    {
        let mut parts: Vec<String> = Vec::new();
        let mut i: usize = 0;
        while i < fields.len()
            invariant
                i <= fields.len(),
                forall|k: int| 0 <= k < fields@.len() ==> is_field_name(#[trigger] fields@[k]@),
                texts(parts@) == set_fields(self@, name_list(fields@).take(i as int)),
            decreases fields.len() - i,
        {
            let ghost before = texts(parts@);
            let ghost more = name_list(fields@).take(i + 1);
            assert(more.drop_last() == name_list(fields@).take(i as int));
            assert(more.last() == fields@[i as int]@);
            match self.field_string(fields[i]) {
                Some(t) => {
                    parts.push(t);
                    assert(texts(parts@) == before.push(t@));
                },
                None => {},
            }
            i += 1;
        }
        assert(name_list(fields@).take(fields@.len() as int) == name_list(fields@));
        spaced_texts(&parts)
    }

    /// The BibTeX type associated with the record: nothing where the record
    /// has no content type, else the entry type that `content_types` holds
    /// for it.
    pub fn bibtex_type(&self, content_types: &Table<BibtexType>) -> (entry_type: Option<BibtexType>)
        requires
            content_types.wf(),
        ensures
            entry_type == entry_type_of(self@, content_types.keys(), content_types.values()),
    {
        match &self.content {
            Some(c) => {
                proof {
                    content_types.lemma_wf();
                }
                match content_types.get(c.as_str()) {
                    Some(t) => Some(*t),
                    None => None,
                }
            },
            None => None,
        }
    }
}

/// Whether the history of a record is in order: it is not empty and ends
/// with the current digest.
pub open spec fn record_wf(r: ResourceView) -> bool {
    r.historical_checksums.len() > 0 && r.historical_checksums.last() == r.checksum
}

/// The digest that a record had when it was made.
pub open spec fn original_digest(r: ResourceView) -> Seq<char> {
    r.historical_checksums[0]
}

/// The entry type of a record under the content types of a catalog, given
/// by their names and entry types.
pub open spec fn entry_type_of(r: ResourceView, names: Seq<Seq<char>>, types: Seq<BibtexType>) -> Option<
    BibtexType,
> {
    match r.content {
        Some(c) => match place_of(names, c) {
            Some(i) => Some(types[i]),
            None => None,
        },
        None => None,
    }
}

} // verus!
