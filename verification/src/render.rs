//! The render: the settings, the colour gathered along a ray within the limit on the rays
//! sent in a row, and the text of the whole picture, pixel by pixel.

use crate::camera::Image;
use crate::color::{
    decimal, lemma_same_first_line, lemma_same_first_number, pixel_line, write_color,
    write_decimal, NEWLINE, SPACE,
};
use vstd::prelude::*;

verus! {

/// How many samples go into each pixel, and how many times a ray may be sent on.
pub struct RenderSettings {
    sample_per_pixel: u32,
    max_depth: u32,
}

impl RenderSettings {
    /// Settings with the given number of samples for each pixel and the given limit on the
    /// number of rays along one path.
    pub fn new(sample_per_pixel: u32, max_depth: u32) -> (settings: Self)
        ensures
            settings.samples() == sample_per_pixel,
            settings.depth() == max_depth,
    {
        Self { sample_per_pixel, max_depth }
    }

    /// The number of samples for each pixel.
    pub closed spec fn samples(&self) -> u32 {
        self.sample_per_pixel
    }

    /// The limit on the number of rays along one path.
    pub closed spec fn depth(&self) -> u32 {
        self.max_depth
    }

    /// The number of samples for each pixel.
    pub fn sample_per_pixel(&self) -> (n: u32)
        ensures
            n == self.samples(),
    {
        self.sample_per_pixel
    }

    /// The limit on the number of rays along one path.
    pub fn max_depth(&self) -> (n: u32)
        ensures
            n == self.depth(),
    {
        self.max_depth
    }
}

/// The head of a picture, three lines in all: the letter `P` and the numeral `3`, which name
/// the kind of file; the width and the height in decimal; and the largest value of one part
/// of a colour, which is 255.
pub open spec fn header(width: int, height: int) -> Seq<u8> {
    seq![80u8, 51u8, NEWLINE] + decimal(width) + seq![SPACE] + decimal(height) + seq![
        NEWLINE,
        50u8,
        53u8,
        53u8,
        NEWLINE,
    ]
}

/// The lines of a row of pixels, one after the other.
pub open spec fn body(pixels: Seq<(i32, i32, i32)>) -> Seq<u8>
    decreases pixels.len(),
{
    if pixels.len() == 0 {
        Seq::empty()
    } else {
        body(pixels.drop_last()) + pixel_line(
            pixels.last().0 as int,
            pixels.last().1 as int,
            pixels.last().2 as int,
        )
    }
}

/// The number of pixels of a picture: none where the width or the height is not positive.
pub open spec fn pixel_count(image: Image) -> nat {
    if image.width > 0 && image.height > 0 {
        (image.width * image.height) as nat
    } else {
        0
    }
}

/// The column of the pixel at place `k`, the places counted row by row from the top and from
/// left to right in each row.
pub open spec fn column_of(image: Image, k: int) -> i32 {
    (k % (image.width as int)) as i32
}

/// The row of the pixel at place `k`, the places counted row by row from the top and from
/// left to right in each row.
pub open spec fn row_of(image: Image, k: int) -> i32 {
    (k / (image.width as int)) as i32
}

/// Whether `pixels` are the pixels of a picture that `shade` can have made, row by row from
/// the top and from left to right in each row: the pixel at place `k` is what `shade` gave
/// for the column and the row of that place.
pub open spec fn shaded<F>(image: Image, shade: F, pixels: Seq<(i32, i32, i32)>) -> bool where
    F: Fn(i32, i32) -> (i32, i32, i32),
{
    &&& pixels.len() == pixel_count(image)
    &&& forall|k: int|
        0 <= k < pixels.len() ==> call_ensures(
            shade,
            (column_of(image, k), row_of(image, k)),
            #[trigger] pixels[k],
        )
}

/// Where `shade` can give one colour only for each pixel, the pixels of the picture are
/// settled by it.
pub proof fn lemma_shaded_is_unique<F>(
    image: Image,
    shade: F,
    pixels_a: Seq<(i32, i32, i32)>,
    pixels_b: Seq<(i32, i32, i32)>,
) where F: Fn(i32, i32) -> (i32, i32, i32)
    requires
        shaded(image, shade, pixels_a),
        shaded(image, shade, pixels_b),
        forall|i: i32, j: i32, a: (i32, i32, i32), b: (i32, i32, i32)|
            #[trigger] call_ensures(shade, (i, j), a) && #[trigger] call_ensures(shade, (i, j), b)
                ==> a == b,
    ensures
        pixels_a == pixels_b,
{
    assert forall|k: int| 0 <= k < pixels_a.len() implies pixels_a[k] == pixels_b[k] by {
        assert(call_ensures(shade, (column_of(image, k), row_of(image, k)), pixels_a[k]));
        assert(call_ensures(shade, (column_of(image, k), row_of(image, k)), pixels_b[k]));
    }
    assert(pixels_a =~= pixels_b);
}

/// The text of a whole picture: its head, then the lines of its pixels.
pub open spec fn picture(width: int, height: int, pixels: Seq<(i32, i32, i32)>) -> Seq<u8> {
    header(width, height) + body(pixels)
}

/// The lines of a row of pixels are the line of the first, then the lines of the others.
pub proof fn lemma_body_from_the_front(pixels: Seq<(i32, i32, i32)>)
    requires
        pixels.len() > 0,
    ensures
        body(pixels) == pixel_line(
            pixels[0].0 as int,
            pixels[0].1 as int,
            pixels[0].2 as int,
        ) + body(pixels.skip(1)),
    decreases pixels.len(),
{
    let first = pixel_line(pixels[0].0 as int, pixels[0].1 as int, pixels[0].2 as int);
    let last = pixel_line(
        pixels.last().0 as int,
        pixels.last().1 as int,
        pixels.last().2 as int,
    );
    if pixels.len() == 1 {
        assert(pixels.drop_last() =~= Seq::<(i32, i32, i32)>::empty());
        assert(pixels.skip(1) =~= Seq::<(i32, i32, i32)>::empty());
        assert(body(pixels) =~= first + body(pixels.skip(1)));
    } else {
        lemma_body_from_the_front(pixels.drop_last());
        assert(pixels.drop_last().skip(1) =~= pixels.skip(1).drop_last());
        assert(pixels.drop_last()[0] == pixels[0]);
        assert(pixels.skip(1).last() == pixels.last());
        assert(body(pixels.skip(1)) == body(pixels.skip(1).drop_last()) + last);
        assert(body(pixels) =~= first + body(pixels.skip(1)));
    }
}

/// The lines of a row of pixels can be read back: two rows with the same lines are the same
/// row.
pub proof fn lemma_body_is_injective(a: Seq<(i32, i32, i32)>, b: Seq<(i32, i32, i32)>)
    requires
        body(a) == body(b),
    ensures
        a == b,
    decreases a.len(),
{
    if a.len() > 0 {
        lemma_body_from_the_front(a);
    }
    if b.len() > 0 {
        lemma_body_from_the_front(b);
    }
    if a.len() == 0 || b.len() == 0 {
        assert(body(a).len() == 0 || body(b).len() == 0);
        assert(a =~= b);
    } else {
        lemma_same_first_line(
            a[0].0 as int,
            a[0].1 as int,
            a[0].2 as int,
            body(a.skip(1)),
            b[0].0 as int,
            b[0].1 as int,
            b[0].2 as int,
            body(b.skip(1)),
        );
        lemma_body_is_injective(a.skip(1), b.skip(1));
        assert(a[0] == b[0]);
        assert(a =~= seq![a[0]] + a.skip(1));
        assert(b =~= seq![b[0]] + b.skip(1));
    }
}

/// The head of a picture, followed by more, is the three bytes of its first line, then the
/// width and a space, then the height and a line end, then the line of the largest value and
/// what follows.
proof fn lemma_header_in_parts(width: int, height: int, rest: Seq<u8>)
    ensures
        header(width, height) + rest == seq![80u8, 51u8, NEWLINE] + (decimal(width) + seq![
            SPACE,
        ] + (decimal(height) + seq![NEWLINE] + (seq![50u8, 53u8, 53u8, NEWLINE] + rest))),
{
    let depth = seq![50u8, 53u8, 53u8, NEWLINE] + rest;
    let from_height = decimal(height) + seq![NEWLINE] + depth;
    let from_width = decimal(width) + seq![SPACE] + from_height;
    assert(seq![NEWLINE, 50u8, 53u8, 53u8, NEWLINE] + rest =~= seq![NEWLINE] + depth);
    assert(from_height =~= decimal(height) + (seq![NEWLINE] + depth));
    assert(from_width =~= decimal(width) + (seq![SPACE] + from_height));
    assert(header(width, height) + rest =~= seq![80u8, 51u8, NEWLINE] + (decimal(width) + (seq![
        SPACE,
    ] + (decimal(height) + (seq![NEWLINE, 50u8, 53u8, 53u8, NEWLINE] + rest)))));
}

/// The text of a picture can be read back: two pictures with the same text have the same
/// width, the same height and the same pixels.
pub proof fn lemma_picture_is_injective(
    width_a: int,
    height_a: int,
    pixels_a: Seq<(i32, i32, i32)>,
    width_b: int,
    height_b: int,
    pixels_b: Seq<(i32, i32, i32)>,
)
    requires
        picture(width_a, height_a, pixels_a) == picture(width_b, height_b, pixels_b),
    ensures
        width_a == width_b,
        height_a == height_b,
        pixels_a == pixels_b,
{
    lemma_header_in_parts(width_a, height_a, body(pixels_a));
    lemma_header_in_parts(width_b, height_b, body(pixels_b));
    let depth_a = seq![50u8, 53u8, 53u8, NEWLINE] + body(pixels_a);
    let depth_b = seq![50u8, 53u8, 53u8, NEWLINE] + body(pixels_b);
    let from_height_a = decimal(height_a) + seq![NEWLINE] + depth_a;
    let from_height_b = decimal(height_b) + seq![NEWLINE] + depth_b;
    let from_width_a = decimal(width_a) + seq![SPACE] + from_height_a;
    let from_width_b = decimal(width_b) + seq![SPACE] + from_height_b;
    let magic = seq![80u8, 51u8, NEWLINE];
    assert(from_width_a =~= (magic + from_width_a).skip(3));
    assert(from_width_b =~= (magic + from_width_b).skip(3));
    lemma_same_first_number(width_a, width_b, SPACE, from_height_a, from_height_b);
    lemma_same_first_number(height_a, height_b, NEWLINE, depth_a, depth_b);
    assert(body(pixels_a) =~= depth_a.skip(4));
    assert(body(pixels_b) =~= depth_b.skip(4));
    lemma_body_is_injective(pixels_a, pixels_b);
}

/// Appends the head of a picture of the size of `image` to `out`.
pub fn write_header(out: &mut Vec<u8>, image: &Image)
    ensures
        final(out)@ == old(out)@ + header(image.width as int, image.height as int),
{
    out.push(80);
    out.push(51);
    out.push(NEWLINE);
    write_decimal(out, image.width);
    out.push(SPACE);
    write_decimal(out, image.height);
    out.push(NEWLINE);
    out.push(50);
    out.push(53);
    out.push(53);
    out.push(NEWLINE);
    assert(out@ =~= old(out)@ + header(image.width as int, image.height as int));
}

/// The whole picture as text: the head, then one line for each pixel, the rows from the top
/// down and each row from left to right. `shade` is asked once for each pixel, in that order,
/// with the pixel's column and row, and gives the three parts of its colour.
pub fn render<F>(image: &Image, shade: F) -> (out: Vec<u8>) where
    F: Fn(i32, i32) -> (i32, i32, i32),

    requires
        forall|i: i32, j: i32|
            0 <= i < image.width && 0 <= j < image.height ==> call_requires(shade, (i, j)),
    ensures
        exists|pixels: Seq<(i32, i32, i32)>| #[trigger]
            shaded(*image, shade, pixels) && out@ == picture(
                image.width as int,
                image.height as int,
                pixels,
            ),
{
    let mut out: Vec<u8> = Vec::new();
    write_header(&mut out, image);
    let ghost head = out@;
    let ghost mut pixels: Seq<(i32, i32, i32)> = Seq::empty();
    let width = image.width;
    let height = image.height;
    let mut j: i32 = 0;
    while j < height
        invariant
            0 <= j,
            j <= height || j == 0,
            width == image.width,
            height == image.height,
            head == header(width as int, height as int),
            out@ == head + body(pixels),
            pixels.len() == (if width > 0 {
                j * width
            } else {
                0
            }),
            forall|i: i32, j: i32| 0 <= i < width && 0 <= j < height ==> call_requires(shade, (i, j)),
            forall|k: int|
                0 <= k < pixels.len() ==> call_ensures(
                    shade,
                    (column_of(*image, k), row_of(*image, k)),
                    #[trigger] pixels[k],
                ),
        decreases height - j,
    {
        let mut i: i32 = 0;
        while i < width
            invariant
                0 <= i,
                i <= width || i == 0,
                0 <= j < height,
                width == image.width,
                height == image.height,
                head == header(width as int, height as int),
                out@ == head + body(pixels),
                pixels.len() == (if width > 0 {
                    j * width + i
                } else {
                    0
                }),
                forall|i: i32, j: i32|
                    0 <= i < width && 0 <= j < height ==> call_requires(shade, (i, j)),
                forall|k: int|
                    0 <= k < pixels.len() ==> call_ensures(
                        shade,
                        (column_of(*image, k), row_of(*image, k)),
                        #[trigger] pixels[k],
                    ),
            decreases width - i,
        {
            let pixel = shade(i, j);
            write_color(&mut out, pixel.0, pixel.1, pixel.2);
            proof {
                let k = pixels.len() as int;
                vstd::arithmetic::div_mod::lemma_fundamental_div_mod_converse(
                    k,
                    width as int,
                    j as int,
                    i as int,
                );
                let longer = pixels.push(pixel);
                assert(longer.drop_last() =~= pixels);
                assert(body(longer) == body(pixels) + pixel_line(
                    pixel.0 as int,
                    pixel.1 as int,
                    pixel.2 as int,
                ));
                assert(out@ =~= head + body(longer));
                pixels = longer;
            }
            i = i + 1;
        }
        proof {
            if width > 0 {
                assert(j * width + width == (j + 1) * width) by (nonlinear_arith);
            }
        }
        j = j + 1;
    }
    proof {
        if width > 0 && height > 0 {
            assert(j * width == width * height) by (nonlinear_arith)
                requires
                    j == height,
            ;
        } else if width > 0 {
            assert(j * width == 0);
        }
        assert(shaded(*image, shade, pixels));
    }
    out
}

/// What became of a ray that was sent into the scene.
pub enum Bounce<R, C> {
    /// The ray met nothing: the colour is that of the background in its direction.
    Missed(C),
    /// A surface took the ray in and sent nothing on.
    Absorbed,
    /// A surface sent the ray on along `ray`, and keeps the share `attenuation` of the colour
    /// that comes back along it.
    Scattered { attenuation: C, ray: R },
}

/// Whether `color` can be the colour gathered along the ray `r` when at most `depth` rays are
/// sent in a row: black with none left; otherwise what `world` makes of the ray decides. A
/// ray that met nothing gives the background, one taken in gives black, and one sent on gives
/// what `attenuate` makes of the surface's share and the colour gathered along the new ray
/// with one ray less.
pub open spec fn gathered<R, C, W, M>(
    world: W,
    attenuate: M,
    black: C,
    r: R,
    depth: nat,
    color: C,
) -> bool where W: Fn(&R) -> Bounce<R, C>, M: Fn(C, C) -> C
    decreases depth,
{
    if depth == 0 {
        color == black
    } else {
        exists|bounce: Bounce<R, C>| #[trigger]
            call_ensures(world, (&r,), bounce) && match bounce {
                Bounce::Missed(background) => color == background,
                Bounce::Absorbed => color == black,
                Bounce::Scattered { attenuation, ray } => exists|inner: C|
                    gathered(world, attenuate, black, ray, (depth - 1) as nat, inner)
                        && #[trigger] call_ensures(attenuate, (attenuation, inner), color),
            }
    }
}

/// Where `world` can make one thing only of each ray, and `attenuate` one colour only of each
/// share and colour, the colour gathered along a ray is settled by them.
pub proof fn lemma_gathered_is_unique<R, C, W, M>(
    world: W,
    attenuate: M,
    black: C,
    r: R,
    depth: nat,
    color_a: C,
    color_b: C,
) where W: Fn(&R) -> Bounce<R, C>, M: Fn(C, C) -> C
    requires
        gathered(world, attenuate, black, r, depth, color_a),
        gathered(world, attenuate, black, r, depth, color_b),
        forall|ray: R, a: Bounce<R, C>, b: Bounce<R, C>|
            #[trigger] call_ensures(world, (&ray,), a) && #[trigger] call_ensures(
                world,
                (&ray,),
                b,
            ) ==> a == b,
        forall|share: C, inner: C, a: C, b: C|
            #[trigger] call_ensures(attenuate, (share, inner), a) && #[trigger] call_ensures(
                attenuate,
                (share, inner),
                b,
            ) ==> a == b,
    ensures
        color_a == color_b,
    decreases depth,
{
    if depth > 0 {
        let bounce_a = choose|bounce: Bounce<R, C>| #[trigger]
            call_ensures(world, (&r,), bounce) && match bounce {
                Bounce::Missed(background) => color_a == background,
                Bounce::Absorbed => color_a == black,
                Bounce::Scattered { attenuation, ray } => exists|inner: C|
                    gathered(world, attenuate, black, ray, (depth - 1) as nat, inner)
                        && #[trigger] call_ensures(attenuate, (attenuation, inner), color_a),
            };
        let bounce_b = choose|bounce: Bounce<R, C>| #[trigger]
            call_ensures(world, (&r,), bounce) && match bounce {
                Bounce::Missed(background) => color_b == background,
                Bounce::Absorbed => color_b == black,
                Bounce::Scattered { attenuation, ray } => exists|inner: C|
                    gathered(world, attenuate, black, ray, (depth - 1) as nat, inner)
                        && #[trigger] call_ensures(attenuate, (attenuation, inner), color_b),
            };
        assert(bounce_a == bounce_b);
        if let Bounce::Scattered { attenuation, ray } = bounce_a {
            let inner_a = choose|inner: C|
                gathered(world, attenuate, black, ray, (depth - 1) as nat, inner)
                    && #[trigger] call_ensures(attenuate, (attenuation, inner), color_a);
            let inner_b = choose|inner: C|
                gathered(world, attenuate, black, ray, (depth - 1) as nat, inner)
                    && #[trigger] call_ensures(attenuate, (attenuation, inner), color_b);
            lemma_gathered_is_unique(
                world,
                attenuate,
                black,
                ray,
                (depth - 1) as nat,
                inner_a,
                inner_b,
            );
        }
    }
}

/// The colour gathered along the ray `r`, with at most `depth` rays sent in a row.
pub fn ray_color<R, C, W, M>(r: &R, depth: u32, world: &W, black: C, attenuate: &M) -> (color:
    C) where C: Copy, W: Fn(&R) -> Bounce<R, C>, M: Fn(C, C) -> C
    requires
        forall|ray: R| call_requires(*world, (&ray,)),
        forall|share: C, inner: C| call_requires(*attenuate, (share, inner)),
    ensures
        gathered(*world, *attenuate, black, *r, depth as nat, color),
        depth == 0 ==> color == black,
    decreases depth,
{
    if depth == 0 {
        return black;
    }
    let bounce = world(r);
    match bounce {
        Bounce::Missed(background) => {
            assert(call_ensures(*world, (r,), bounce));
            background
        },
        Bounce::Absorbed => {
            assert(call_ensures(*world, (r,), bounce));
            black
        },
        Bounce::Scattered { attenuation, ray } => {
            let inner = ray_color(&ray, depth - 1, world, black, attenuate);
            let color = attenuate(attenuation, inner);
            assert(call_ensures(*attenuate, (attenuation, inner), color));
            assert(call_ensures(*world, (r,), bounce));
            color
        },
    }
}

} // verus!

