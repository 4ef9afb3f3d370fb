use vstd::prelude::*;

verus! {

/// An image: its width and height in pixels and the bytes of its pixels,
/// row by row.
pub struct DecodedImage {
    pub width: u32,
    pub height: u32,
    pub pixels: Vec<u8>,
}

/// The first frame of the PNG file `bytes` as its width, its height and the
/// bytes of its pixels in the file's own colour format; `None` where the
/// decoder refuses `bytes`.
pub uninterp spec fn png_image(bytes: Seq<u8>) -> Option<(u32, u32, Seq<u8>)>;

/// `png::Decoder::new` on the bytes, `read_info`, then `next_frame` into a
/// buffer of `output_buffer_size()` bytes, with the size from the header's
/// `size()`; an error of either step gives `None`. The contract names the
/// result after the bytes; what decoding a PNG gives is not written out.
#[verifier::external_body]
fn png_first_frame(bytes: &[u8]) -> (r: Option<(u32, u32, Vec<u8>)>)
    ensures
        r is Some <==> png_image(bytes@) is Some,
        r matches Some(t) ==> png_image(bytes@) == Some((t.0, t.1, t.2@)),
{
    let mut reader = png::Decoder::new(bytes).read_info().ok()?;
    let mut buf = vec![0u8; reader.output_buffer_size()];
    reader.next_frame(&mut buf).ok()?;
    let (width, height) = reader.info().size();
    Some((width, height, buf))
}

/// Decodes the bytes of a PNG file into the image of its first frame;
/// `None` where they are no PNG file that can be read.
pub fn decode_png(bytes: &[u8]) -> (r: Option<DecodedImage>)
    ensures
        match png_image(bytes@) {
            None => r is None,
            Some(t) => r matches Some(img) && img.width == t.0 && img.height == t.1 && img.pixels@ == t.2,
        },
{
    match png_first_frame(bytes) {
        Some((width, height, pixels)) => Some(DecodedImage { width, height, pixels }),
        None => None,
    }
}

/// The extension "png".
pub open spec fn png_extension() -> Seq<char> {
    seq!['p', 'n', 'g']
}

/// The name of the graphical asset that a file named `name` holds: its name
/// before the last '.', where that dot is not its first character and
/// "png" follows it; `None` for any other file. This is the file stem
/// where the extension, as paths split it, is "png".
pub open spec fn png_asset_name(name: Seq<char>) -> Option<Seq<char>> {
    if exists|i: int| 0 < i < name.len() && name[i] == '.' && name.subrange(i + 1, name.len() as int) == png_extension()
        && forall|j: int| i < j < name.len() ==> name[j] != '.' {
        let i = choose|i: int| 0 < i < name.len() && name[i] == '.' && name.subrange(i + 1, name.len() as int) == png_extension()
            && forall|j: int| i < j < name.len() ==> name[j] != '.';
        Some(name.subrange(0, i))
    } else {
        None
    }
}

/// The asset name of a file of the assets folder, as `png_asset_name`
/// describes it.
pub fn asset_name_of_file(name: &str) -> (r: Option<String>)
    ensures
        match png_asset_name(name@) {
            None => r is None,
            Some(a) => r matches Some(s) && s@ == a,
        },
{
    let n = name.unicode_len();
    if n < 5 {
        proof {
            assert forall|i: int| 0 < i < name@.len() && name@[i] == '.' implies
                name@.subrange(i + 1, name@.len() as int) != png_extension() by {
                assert(name@.subrange(i + 1, name@.len() as int).len() < 3);
            }
        }
        return None;
    }
    let i = n - 4;
    let is_png = name.get_char(i) == '.' && name.get_char(i + 1) == 'p' && name.get_char(i + 2) == 'n'
        && name.get_char(i + 3) == 'g';
    if !is_png {
        proof {
            assert forall|k: int| 0 < k < name@.len() && name@[k] == '.' && name@.subrange(k + 1, name@.len() as int) == png_extension()
                implies false by {
                let t = name@.subrange(k + 1, name@.len() as int);
                assert(t.len() == 3);
                assert(k == i);
                assert(t[0] == name@[i + 1] && t[1] == name@[i + 2] && t[2] == name@[i + 3]);
            }
        }
        return None;
    }
    proof {
        let t = name@.subrange(i + 1, name@.len() as int);
        assert(t =~= png_extension());
        let w = choose|k: int| 0 < k < name@.len() && name@[k] == '.' && name@.subrange(k + 1, name@.len() as int) == png_extension()
            && forall|j: int| k < j < name@.len() ==> name@[j] != '.';
        assert(0 < i as int && name@[i as int] == '.' && forall|j: int| i < j < name@.len() ==> name@[j] != '.');
        assert(name@.subrange(w + 1, name@.len() as int).len() == 3);
        assert(w == i);
    }
    Some(String::from_str(name.substring_char(0, i)))
}

} // verus!
