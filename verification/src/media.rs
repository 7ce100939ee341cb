//! Media files and their thumbnails.
//!
//! A file is stored under the key `mxc + 0xff + width + height + 0xff ‖
//! filename + 0xff + content type`, with width and height as four-byte
//! big-endian integers that are both zero for the file as it was uploaded.

use crate::error::Error;
use crate::tree::{first_with_prefix, Tree};
use crate::utils::{copy_range, find_sep, next_sep};
use image::GenericImageView;
use crate::utils::{
    append, be_bytes, before_last_field, before_last_field_of, last_field, last_field_of,
    string_from_bytes, u32_to_be_bytes, SEPARATOR,
};
use vstd::prelude::*;
use vstd::utf8::*;

verus! {

/// A stored file with what is known of it.
#[derive(Debug)]
pub struct FileMeta {
    pub filename: Option<String>,
    pub content_type: Option<String>,
    pub file: Vec<u8>,
}

/// A [`FileMeta`] as plain values.
pub ghost struct FileMetaView {
    pub filename: Option<Seq<char>>,
    pub content_type: Option<Seq<char>>,
    pub file: Seq<u8>,
}

impl View for FileMeta {
    type V = FileMetaView;

    open spec fn view(&self) -> FileMetaView {
        FileMetaView {
            filename: match self.filename {
                Some(s) => Some(s@),
                None => None,
            },
            content_type: match self.content_type {
                Some(s) => Some(s@),
                None => None,
            },
            file: self.file@,
        }
    }
}

/// The media table.
pub struct Media {
    /// MediaId = MXC + WidthHeight + Filename + ContentType
    pub mediaid_file: Tree,
}

/// The beginning of the keys of one file in one size.
pub open spec fn media_prefix(mxc: Seq<u8>, width: u32, height: u32) -> Seq<u8> {
    mxc.push(SEPARATOR) + be_bytes(width as nat, 4) + be_bytes(height as nat, 4) + seq![SEPARATOR]
}

/// The key of a file in one size.
pub open spec fn media_key(
    mxc: Seq<u8>,
    width: u32,
    height: u32,
    filename: Seq<u8>,
    content_type: Seq<u8>,
) -> Seq<u8> {
    media_prefix(mxc, width, height) + filename + seq![SEPARATOR] + content_type
}

/// The bytes of an optional string, none counting as empty.
pub open spec fn opt_bytes(s: Option<Seq<char>>) -> Seq<u8> {
    match s {
        Some(chars) => encode_utf8(chars),
        None => Seq::empty(),
    }
}

/// What a row of the media table says of its file: the content type is the
/// key's last field and the file name the field before it, which is absent
/// when empty.
pub open spec fn read_meta(key: Seq<u8>, file: Seq<u8>) -> Result<FileMetaView, Error> {
    let content_type = last_field(key);
    if !valid_utf8(content_type) {
        Err(Error::BadDatabase("Content type in mediaid_file is invalid unicode."))
    } else {
        match before_last_field(key) {
            None => Err(Error::BadDatabase("Media ID in db is invalid.")),
            Some(head) => {
                let filename = last_field(head);
                if filename.len() == 0 {
                    Ok(
                        FileMetaView {
                            filename: None,
                            content_type: Some(decode_utf8(content_type)),
                            file,
                        },
                    )
                } else if !valid_utf8(filename) {
                    Err(Error::BadDatabase("Filename in mediaid_file is invalid unicode."))
                } else {
                    Ok(
                        FileMetaView {
                            filename: Some(decode_utf8(filename)),
                            content_type: Some(decode_utf8(content_type)),
                            file,
                        },
                    )
                }
            },
        }
    }
}

/// The size a thumbnail of the wanted size is made in, and whether it is
/// cropped to it. `None` where the file is sent as it is.
pub open spec fn thumbnail_size(width: u32, height: u32) -> Option<(u32, u32, bool)> {
    if width <= 32 && height <= 32 {
        Some((32u32, 32u32, true))
    } else if width <= 96 && height <= 96 {
        Some((96u32, 96u32, true))
    } else if width <= 320 && height <= 240 {
        Some((320u32, 240u32, false))
    } else if width <= 640 && height <= 480 {
        Some((640u32, 480u32, false))
    } else if width <= 800 && height <= 600 {
        Some((800u32, 600u32, false))
    } else {
        None
    }
}

/// The width and height of the image that the bytes hold, as the `image`
/// crate decodes it; `None` where the crate decodes no image.
pub uninterp spec fn decoded_dimensions(file: Seq<u8>) -> Option<(u32, u32)>;

/// The PNG that the `image` crate makes of the image that the bytes hold,
/// resized to fill the given size and cropped to it; `None` where it
/// decodes no image or cannot encode the result.
pub uninterp spec fn resized_to_fill(file: Seq<u8>, width: u32, height: u32) -> Option<Seq<u8>>;

/// The PNG that the `image` crate makes of the image that the bytes hold,
/// scaled down to exactly the given size; `None` where it decodes no image
/// or cannot encode the result.
pub uninterp spec fn thumbnailed(file: Seq<u8>, width: u32, height: u32) -> Option<Seq<u8>>;

/// `image::load_from_memory`, with the image's `width` and `height` read
/// out. Trusted: the answer depends on the bytes alone.
#[verifier::external_body]
fn image_dimensions(file: &[u8]) -> (r: Option<(u32, u32)>)
    ensures
        r == decoded_dimensions(file@),
{
    image::load_from_memory(file).ok().map(|image| (image.width(), image.height()))
}

/// The bytes hold an image that the `image` crate decodes, and the image
/// has a width and a height.
pub open spec fn holds_image(file: Seq<u8>) -> bool {
    match decoded_dimensions(file) {
        Some(d) => d.0 > 0 && d.1 > 0,
        None => false,
    }
}

/// `DynamicImage::resize_to_fill` with the triangle filter, on the image
/// that `image::load_from_memory` decodes, written as PNG by `write_to`.
/// Trusted: the answer depends on the bytes and the size alone. The crate
/// divides by the image's width and height, so an image without them is
/// left out.
#[verifier::external_body]
fn resize_to_fill(file: &[u8], width: u32, height: u32) -> (r: Option<Vec<u8>>)
    requires
        width > 0,
        height > 0,
        holds_image(file@),
    ensures
        r is Some == resized_to_fill(file@, width, height) is Some,
        r matches Some(png) ==> resized_to_fill(file@, width, height) == Some(png@),
{
    let image = image::load_from_memory(file).ok()?;
    let thumbnail = image.resize_to_fill(width, height, image::imageops::FilterType::Triangle);
    let mut bytes = Vec::new();
    thumbnail.write_to(&mut bytes, image::ImageOutputFormat::Png).ok()?;
    Some(bytes)
}

/// `DynamicImage::thumbnail_exact` on the image that
/// `image::load_from_memory` decodes, written as PNG by `write_to`.
/// Trusted: the answer depends on the bytes and the size alone. The crate
/// counts down from the image's width and height, so an image without
/// them is left out.
#[verifier::external_body]
fn thumbnail_exact(file: &[u8], width: u32, height: u32) -> (r: Option<Vec<u8>>)
    requires
        holds_image(file@),
    ensures
        r is Some == thumbnailed(file@, width, height) is Some,
        r matches Some(png) ==> thumbnailed(file@, width, height) == Some(png@),
{
    let image = image::load_from_memory(file).ok()?;
    let thumbnail = image.thumbnail_exact(width, height);
    let mut bytes = Vec::new();
    thumbnail.write_to(&mut bytes, image::ImageOutputFormat::Png).ok()?;
    Some(bytes)
}

/// The size to which an image of `original_width` by `original_height` is
/// scaled so that it keeps its aspect ratio within `width` by `height`:
/// the bound that the image fills is kept, and the other side follows the
/// image.
pub open spec fn exact_dimensions(
    original_width: u32,
    original_height: u32,
    width: u32,
    height: u32,
) -> (u32, u32) {
    let ratio = original_width as int * height as int;
    let nratio = width as int * original_height as int;
    if nratio > ratio {
        let intermediate = original_height as int * width as int / original_width as int;
        if intermediate <= u32::MAX {
            (width, intermediate as u32)
        } else {
            ((width as int * u32::MAX as int / intermediate) as u32, u32::MAX)
        }
    } else {
        let intermediate = original_width as int * height as int / original_height as int;
        if intermediate <= u32::MAX {
            (intermediate as u32, height)
        } else {
            (u32::MAX, (height as int * u32::MAX as int / intermediate) as u32)
        }
    }
}

/// Computes the size of a thumbnail that keeps the aspect ratio.
pub fn thumbnail_dimensions(original_width: u32, original_height: u32, width: u32, height: u32) -> (r:
    (u32, u32))
    requires
        original_width > 0,
        original_height > 0,
    ensures
        r == exact_dimensions(original_width, original_height, width, height),
{
    let ow = original_width as u64;
    let oh = original_height as u64;
    let w = width as u64;
    let h = height as u64;
    let max = u32::MAX as u64;
    assert(ow * h <= 0xffff_ffff * 0xffff_ffff) by (nonlinear_arith)
        requires
            ow <= 0xffff_ffff,
            h <= 0xffff_ffff,
    ;
    assert(w * oh <= 0xffff_ffff * 0xffff_ffff) by (nonlinear_arith)
        requires
            w <= 0xffff_ffff,
            oh <= 0xffff_ffff,
    ;
    assert(oh * w == w * oh) by (nonlinear_arith);
    let ratio = ow * h;
    let nratio = w * oh;
    let use_width = nratio > ratio;
    let intermediate = if use_width {
        oh * w / ow
    } else {
        ow * h / oh
    };
    if use_width {
        if intermediate <= max {
            (width, intermediate as u32)
        } else {
            assert((w * max) as int / (intermediate as int) <= w) by (nonlinear_arith)
                requires
                    intermediate > max,
                    max > 0,
                    w >= 0,
            ;
            assert(w * max <= 0xffff_ffff * 0xffff_ffff) by (nonlinear_arith)
                requires
                    w <= 0xffff_ffff,
                    max == 0xffff_ffff,
            ;
            ((w * max / intermediate) as u32, u32::MAX)
        }
    } else if intermediate <= max {
        (intermediate as u32, height)
    } else {
        assert((h * max) as int / (intermediate as int) <= h) by (nonlinear_arith)
            requires
                intermediate > max,
                max > 0,
                h >= 0,
        ;
        assert(h * max <= 0xffff_ffff * 0xffff_ffff) by (nonlinear_arith)
            requires
                h <= 0xffff_ffff,
                max == 0xffff_ffff,
        ;
        (u32::MAX, (h * max / intermediate) as u32)
    }
}

/// What is sent for a file of which a thumbnail of `width` by `height` is
/// wanted.
pub enum ThumbnailPlan {
    /// The file as it was uploaded: it is no image, or smaller than the
    /// thumbnail.
    SendOriginal,
    /// A thumbnail resized to fill the size and cropped to it.
    Crop(u32, u32),
    /// A thumbnail scaled down to exactly the size.
    Exact(u32, u32),
}

/// What is sent for an image of the given dimensions.
pub open spec fn thumbnail_plan(
    dimensions: Option<(u32, u32)>,
    width: u32,
    height: u32,
    crop: bool,
) -> ThumbnailPlan {
    match dimensions {
        None => ThumbnailPlan::SendOriginal,
        Some(original) => if width > original.0 || height > original.1 {
            ThumbnailPlan::SendOriginal
        } else if crop {
            ThumbnailPlan::Crop(width, height)
        } else {
            ThumbnailPlan::Exact(
                exact_dimensions(original.0, original.1, width, height).0,
                exact_dimensions(original.0, original.1, width, height).1,
            )
        },
    }
}

/// Decides what is sent for a file, from the dimensions of the image it
/// holds, if it holds one.
pub fn plan_thumbnail(dimensions: Option<(u32, u32)>, width: u32, height: u32, crop: bool) -> (r:
    ThumbnailPlan)
    requires
        width > 0,
        height > 0,
    ensures
        r == thumbnail_plan(dimensions, width, height, crop),
{
    match dimensions {
        None => ThumbnailPlan::SendOriginal,
        Some((original_width, original_height)) => {
            if width > original_width || height > original_height {
                ThumbnailPlan::SendOriginal
            } else if crop {
                ThumbnailPlan::Crop(width, height)
            } else {
                let (exact_width, exact_height) = thumbnail_dimensions(
                    original_width,
                    original_height,
                    width,
                    height,
                );
                ThumbnailPlan::Exact(exact_width, exact_height)
            }
        },
    }
}

/// The thumbnail that a plan makes of a file, if it makes one.
pub open spec fn planned_thumbnail(file: Seq<u8>, plan: ThumbnailPlan) -> Option<Seq<u8>> {
    match plan {
        ThumbnailPlan::SendOriginal => None,
        ThumbnailPlan::Crop(width, height) => resized_to_fill(file, width, height),
        ThumbnailPlan::Exact(width, height) => thumbnailed(file, width, height),
    }
}

/// The key under which the thumbnail of a file is saved: the file's key
/// with the eight bytes after its first separator, which hold width and
/// height, replaced. `None` where the key has no such bytes.
pub open spec fn thumbnail_key(key: Seq<u8>, width: u32, height: u32) -> Option<Seq<u8>> {
    let at = next_sep(key, 0) + 1;
    if at + 8 <= key.len() {
        Some(
            key.take(at) + be_bytes(width as nat, 4) + be_bytes(height as nat, 4) + key.skip(
                at + 8,
            ),
        )
    } else {
        None
    }
}

/// The plain values behind what a look-up found.
pub open spec fn found_view(r: Result<Option<FileMeta>, Error>) -> Result<
    Option<FileMetaView>,
    Error,
> {
    match r {
        Ok(Some(meta)) => Ok(Some(meta@)),
        Ok(None) => Ok(None),
        Err(e) => Err(e),
    }
}

/// What a request for a thumbnail comes to: the media table as it is left,
/// and what is sent.
///
/// A saved thumbnail of the size is sent as it is. Else the thumbnail is
/// made of the uploaded file, saved under the file's key with the size put
/// in, and sent, unless the file is to be sent as it is. Nothing is sent
/// where the file was never uploaded.
pub open spec fn thumbnail_outcome(
    files: Map<Seq<u8>, Seq<u8>>,
    mxc: Seq<u8>,
    width: u32,
    height: u32,
) -> (Map<Seq<u8>, Seq<u8>>, Result<Option<FileMetaView>, Error>) {
    let size = match thumbnail_size(width, height) {
        Some(size) => size,
        None => (0u32, 0u32, false),
    };
    match first_with_prefix(files, media_prefix(mxc, size.0, size.1)) {
        Some(key) => match read_meta(key, files[key]) {
            Ok(meta) => (files, Ok(Some(meta))),
            Err(e) => (files, Err(e)),
        },
        None => match first_with_prefix(files, media_prefix(mxc, 0, 0)) {
            None => (files, Ok(None)),
            Some(key) => match read_meta(key, files[key]) {
                Err(e) => (files, Err(e)),
                Ok(meta) => {
                    let plan = thumbnail_plan(
                        decoded_dimensions(files[key]),
                        size.0,
                        size.1,
                        size.2,
                    );
                    if plan is SendOriginal {
                        (files, Ok(Some(meta)))
                    } else {
                        match (
                            planned_thumbnail(files[key], plan),
                            thumbnail_key(key, size.0, size.1),
                        ) {
                            (Some(png), Some(new_key)) => (
                                files.insert(new_key, png),
                                Ok(
                                    Some(
                                        FileMetaView {
                                            filename: meta.filename,
                                            content_type: meta.content_type,
                                            file: png,
                                        },
                                    ),
                                ),
                            ),
                            (None, _) => (
                                files,
                                Err(Error::BadDatabase("Thumbnail could not be written.")),
                            ),
                            (Some(_), None) => (
                                files,
                                Err(Error::BadDatabase("Media in db is invalid.")),
                            ),
                        }
                    }
                },
            },
        },
    }
}

/// Reads what a row of the media table says of its file.
fn meta_of(key: &[u8], file: Vec<u8>) -> (r: Result<FileMeta, Error>)
    ensures
        match r {
            Ok(meta) => read_meta(key@, file@) == Ok::<FileMetaView, Error>(meta@),
            Err(e) => read_meta(key@, file@) == Err::<FileMetaView, Error>(e),
        },
{
    let content_type = match string_from_bytes(last_field_of(key).as_slice()) {
        Ok(s) => s,
        Err(_) => {
            return Err(
                Error::bad_database("Content type in mediaid_file is invalid unicode."),
            );
        },
    };
    let head = match before_last_field_of(key) {
        Some(head) => head,
        None => {
            return Err(Error::bad_database("Media ID in db is invalid."));
        },
    };
    let filename_bytes = last_field_of(head.as_slice());
    let filename = if filename_bytes.len() == 0 {
        None
    } else {
        match string_from_bytes(filename_bytes.as_slice()) {
            Ok(s) => Some(s),
            Err(_) => {
                return Err(Error::bad_database("Filename in mediaid_file is invalid unicode."));
            },
        }
    };
    Ok(FileMeta { filename, content_type: Some(content_type), file })
}

/// The beginning of the keys of one file in one size.
fn prefix_of(mxc: &[u8], width: u32, height: u32) -> (r: Vec<u8>)
    ensures
        r@ == media_prefix(mxc@, width, height),
{
    let mut key: Vec<u8> = Vec::new();
    append(&mut key, mxc);
    key.push(SEPARATOR);
    append(&mut key, u32_to_be_bytes(width).as_slice());
    append(&mut key, u32_to_be_bytes(height).as_slice());
    key.push(SEPARATOR);
    assert(key@ =~= media_prefix(mxc@, width, height));
    key
}

/// A copy of the bytes.
fn to_vec_of(bytes: &Vec<u8>) -> (r: Vec<u8>)
    ensures
        r@ == bytes@,
{
    crate::utils::to_vec(bytes.as_slice())
}

/// The bytes of an optional string.
fn bytes_of(s: &Option<String>) -> (r: Vec<u8>)
    ensures
        r@ == opt_bytes(
            match *s {
                Some(string) => Some(string@),
                None => None,
            },
        ),
{
    let mut out: Vec<u8> = Vec::new();
    match s {
        Some(string) => {
            append(&mut out, string.as_str().as_bytes());
            assert(out@ =~= encode_utf8(string@));
        },
        None => {},
    }
    out
}

impl Media {
    /// Uploads or replaces a file.
    pub fn create(
        &mut self,
        mxc: String,
        filename: &Option<String>,
        content_type: &Option<String>,
        file: &[u8],
    )
        requires
            old(self).mediaid_file.wf(),
        ensures
            final(self).mediaid_file.wf(),
            final(self).mediaid_file@ == old(self).mediaid_file@.insert(
                media_key(
                    encode_utf8(mxc@),
                    0,
                    0,
                    opt_bytes(
                        match *filename {
                            Some(s) => Some(s@),
                            None => None,
                        },
                    ),
                    opt_bytes(
                        match *content_type {
                            Some(s) => Some(s@),
                            None => None,
                        },
                    ),
                ),
                file@,
            ),
            final(self).mediaid_file.watch() == old(self).mediaid_file.watch().fire(
                media_key(
                    encode_utf8(mxc@),
                    0,
                    0,
                    opt_bytes(
                        match *filename {
                            Some(s) => Some(s@),
                            None => None,
                        },
                    ),
                    opt_bytes(
                        match *content_type {
                            Some(s) => Some(s@),
                            None => None,
                        },
                    ),
                ),
            ),
    {
        self.upload_thumbnail(mxc, filename, content_type, 0, 0, file)
    }

    /// Uploads or replaces a file thumbnail.
    pub fn upload_thumbnail(
        &mut self,
        mxc: String,
        filename: &Option<String>,
        content_type: &Option<String>,
        width: u32,
        height: u32,
        file: &[u8],
    )
        requires
            old(self).mediaid_file.wf(),
        ensures
            final(self).mediaid_file.wf(),
            final(self).mediaid_file@ == old(self).mediaid_file@.insert(
                media_key(
                    encode_utf8(mxc@),
                    width,
                    height,
                    opt_bytes(
                        match *filename {
                            Some(s) => Some(s@),
                            None => None,
                        },
                    ),
                    opt_bytes(
                        match *content_type {
                            Some(s) => Some(s@),
                            None => None,
                        },
                    ),
                ),
                file@,
            ),
            final(self).mediaid_file.watch() == old(self).mediaid_file.watch().fire(
                media_key(
                    encode_utf8(mxc@),
                    width,
                    height,
                    opt_bytes(
                        match *filename {
                            Some(s) => Some(s@),
                            None => None,
                        },
                    ),
                    opt_bytes(
                        match *content_type {
                            Some(s) => Some(s@),
                            None => None,
                        },
                    ),
                ),
            ),
    {
        let mut key = prefix_of(mxc.as_str().as_bytes(), width, height);
        append(&mut key, bytes_of(filename).as_slice());
        key.push(SEPARATOR);
        append(&mut key, bytes_of(content_type).as_slice());
        assert(key@ =~= media_key(
            encode_utf8(mxc@),
            width,
            height,
            opt_bytes(
                match *filename {
                    Some(s) => Some(s@),
                    None => None,
                },
            ),
            opt_bytes(
                match *content_type {
                    Some(s) => Some(s@),
                    None => None,
                },
            ),
        ));
        self.mediaid_file.insert(key.as_slice(), file);
    }

    /// Downloads a file: the first row stored for it in its uploaded size.
    pub fn get(&self, mxc: &str) -> (r: Result<Option<FileMeta>, Error>)
        requires
            self.mediaid_file.wf(),
        ensures
            match first_with_prefix(self.mediaid_file@, media_prefix(encode_utf8(mxc@), 0, 0)) {
                None => r matches Ok(None),
                Some(key) => match read_meta(key, self.mediaid_file@[key]) {
                    Ok(meta) => r matches Ok(Some(found)) && found@ == meta,
                    Err(e) => r matches Err(err) && err == e,
                },
            },
    {
        let prefix = prefix_of(mxc.as_bytes(), 0, 0);
        match self.mediaid_file.first_with_prefix(prefix.as_slice()) {
            Some((key, file)) => match meta_of(key.as_slice(), file) {
                Ok(meta) => Ok(Some(meta)),
                Err(e) => Err(e),
            },
            None => Ok(None),
        }
    }

    /// Downloads a file's thumbnail.
    ///
    /// Here's an example on how it works:
    ///
    /// - Client requests an image with width=567, height=567
    /// - Server rounds that up to (800, 600), so it doesn't have to save too
    ///   many thumbnails
    /// - Server rounds that up again to (958, 600) to fix the aspect ratio
    ///   (only for width,height>96)
    /// - Server creates the thumbnail and sends it to the user
    ///
    /// For width,height <= 96 the server uses another thumbnailing algorithm
    /// which crops the image afterwards.
    ///
    /// A saved thumbnail of the size is sent as it is. Else the thumbnail is
    /// made of the uploaded file and saved, unless the file is to be sent as
    /// it is. Nothing is sent where the file was never uploaded.
    pub fn get_thumbnail(&mut self, mxc: String, width: u32, height: u32) -> (r: Result<
        Option<FileMeta>,
        Error,
    >)
        requires
            old(self).mediaid_file.wf(),
        ensures
            final(self).mediaid_file.wf(),
            (final(self).mediaid_file@, found_view(r)) == thumbnail_outcome(
                old(self).mediaid_file@,
                encode_utf8(mxc@),
                width,
                height,
            ),
    {
        let (width, height, crop) = match self.thumbnail_properties(width, height) {
            Some(size) => size,
            None => (0, 0, false),  // 0, 0 because that's the original file
        };
        let thumbnail_prefix = prefix_of(mxc.as_str().as_bytes(), width, height);
        let original_prefix = prefix_of(mxc.as_str().as_bytes(), 0, 0);
        match self.mediaid_file.first_with_prefix(thumbnail_prefix.as_slice()) {
            Some((key, file)) => {
                // Using saved thumbnail
                return match meta_of(key.as_slice(), file) {
                    Ok(meta) => Ok(Some(meta)),
                    Err(e) => Err(e),
                };
            },
            None => {},
        }
        let (key, file) = match self.mediaid_file.first_with_prefix(original_prefix.as_slice()) {
            Some(row) => row,
            None => {
                return Ok(None);
            },
        };
        // Generate a thumbnail
        let ghost file_view = file@;
        let original = to_vec_of(&file);
        let meta = match meta_of(key.as_slice(), file) {
            Ok(meta) => meta,
            Err(e) => {
                return Err(e);
            },
        };
        assert(width > 0 && height > 0) by {
            if width == 0 || height == 0 {
                assert(thumbnail_prefix@ == original_prefix@);
            }
        }
        let thumbnail = match plan_thumbnail(
            image_dimensions(original.as_slice()),
            width,
            height,
            crop,
        ) {
            ThumbnailPlan::SendOriginal => {
                // Couldn't parse file to generate thumbnail, or it is
                // smaller than the thumbnail: send original
                return Ok(Some(meta));
            },
            ThumbnailPlan::Crop(w, h) => resize_to_fill(original.as_slice(), w, h),
            ThumbnailPlan::Exact(w, h) => thumbnail_exact(original.as_slice(), w, h),
        };
        let thumbnail_bytes = match thumbnail {
            Some(bytes) => bytes,
            None => {
                return Err(Error::bad_database("Thumbnail could not be written."));
            },
        };
        // Save thumbnail in database so we don't have to generate it again next time
        let width_index = find_sep(key.as_slice(), 0);
        if key.len() - width_index < 9 {
            return Err(Error::bad_database("Media in db is invalid."));
        }
        let mut thumbnail_key = copy_range(key.as_slice(), 0, width_index + 1);
        append(&mut thumbnail_key, u32_to_be_bytes(width).as_slice());
        append(&mut thumbnail_key, u32_to_be_bytes(height).as_slice());
        append(&mut thumbnail_key, copy_range(key.as_slice(), width_index + 9, key.len()).as_slice());
        assert(thumbnail_key@ =~= key@.take(width_index + 1) + be_bytes(width as nat, 4) + be_bytes(
            height as nat,
            4,
        ) + key@.skip(width_index + 9));
        self.mediaid_file.insert(thumbnail_key.as_slice(), thumbnail_bytes.as_slice());
        Ok(
            Some(
                FileMeta {
                    filename: meta.filename,
                    content_type: meta.content_type,
                    file: thumbnail_bytes,
                },
            ),
        )
    }

    /// Returns width, height of the thumbnail and whether it should be
    /// cropped. Returns None when the server should send the original file.
    pub fn thumbnail_properties(&self, width: u32, height: u32) -> (r: Option<(u32, u32, bool)>)
        ensures
            r == thumbnail_size(width, height),
    {
        if width <= 32 && height <= 32 {
            Some((32, 32, true))
        } else if width <= 96 && height <= 96 {
            Some((96, 96, true))
        } else if width <= 320 && height <= 240 {
            Some((320, 240, false))
        } else if width <= 640 && height <= 480 {
            Some((640, 480, false))
        } else if width <= 800 && height <= 600 {
            Some((800, 600, false))
        } else {
            None
        }
    }
}

} // verus!
