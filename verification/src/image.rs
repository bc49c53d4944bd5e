//! The byte buffer every rendering mode returns, and the colour ramps and
//! height shapes the modes are configured with.

use vstd::prelude::*;

verus! {

/// How the noise is shaped into a height map before it is lit.
#[derive(Clone, Copy, Debug, PartialEq, Eq, Structural)]
pub enum Shape {
    /// Height is the noise itself: smooth hills and hollows.
    Smooth,
    /// Height is the distance from zero, which turns the lines where the noise
    /// changes sign into sharp creases between rounded blobs.
    Billow,
    /// Billow upside down: sharp ridges with wide smooth basins between them.
    Ridged,
}

/// Maps a noise value to a colour.
#[derive(Clone, Copy, Debug, PartialEq, Eq, Structural)]
pub enum Palette {
    /// Black through to white.
    Gray,
    /// Blue through white to red, for telling low from high at a glance.
    BlueRed,
    /// Black through red and orange to white.
    Heat,
    /// Deep red to pink, for a glossy liquid look under relief lighting.
    Crimson,
    /// Navy to bright blue: [`Palette::Crimson`] in blue.
    Azure,
    /// Deep water, shallow water, sand, grass, rock, snow.
    Terrain,
}

/// The evenly spaced colours each palette interpolates between.
pub open spec fn palette_stops(palette: Palette) -> Seq<[u8; 3]> {
    match palette {
        Palette::Gray => seq![[0u8, 0u8, 0u8], [255u8, 255u8, 255u8]],
        Palette::BlueRed => seq![[33u8, 102u8, 172u8], [247u8, 247u8, 247u8], [178u8, 24u8, 43u8]],
        Palette::Heat => seq![
            [0u8, 0u8, 0u8],
            [128u8, 0u8, 0u8],
            [255u8, 80u8, 0u8],
            [255u8, 200u8, 0u8],
            [255u8, 255u8, 255u8],
        ],
        Palette::Crimson => seq![
            [92u8, 13u8, 33u8],
            [122u8, 16u8, 40u8],
            [148u8, 18u8, 46u8],
            [170u8, 21u8, 54u8],
            [188u8, 25u8, 62u8],
            [202u8, 31u8, 72u8],
            [214u8, 40u8, 86u8],
            [226u8, 58u8, 104u8],
        ],
        Palette::Azure => seq![
            [12u8, 30u8, 88u8],
            [15u8, 38u8, 118u8],
            [18u8, 46u8, 146u8],
            [22u8, 56u8, 172u8],
            [28u8, 68u8, 192u8],
            [38u8, 84u8, 208u8],
            [54u8, 104u8, 220u8],
            [78u8, 132u8, 234u8],
        ],
        Palette::Terrain => seq![
            [12u8, 44u8, 92u8],
            [40u8, 110u8, 170u8],
            [214u8, 199u8, 138u8],
            [92u8, 148u8, 74u8],
            [120u8, 110u8, 100u8],
            [250u8, 250u8, 250u8],
        ],
    }
}

/// Every channel rises or holds from one stop to the next: the ramp only
/// ever brightens.
pub open spec fn climbs(stops: Seq<[u8; 3]>) -> bool {
    forall|k: int, c: int| 0 <= k < stops.len() - 1 && 0 <= c < 3 ==> #[trigger] stops[k][c] <= stops[k + 1][c]
}

/// Red is the strongest channel.
pub open spec fn reddish(color: [u8; 3]) -> bool {
    color[0] > color[1] && color[0] > color[2]
}

/// Blue is the strongest channel.
pub open spec fn bluish(color: [u8; 3]) -> bool {
    color[2] > color[0] && color[2] > color[1]
}

/// Green is the strongest channel.
pub open spec fn greenish(color: [u8; 3]) -> bool {
    color[1] > color[0] && color[1] > color[2]
}

/// Red and green both above blue: a yellow or sandy hue.
pub open spec fn yellowish(color: [u8; 3]) -> bool {
    color[0] > color[2] && color[1] > color[2]
}

/// No two channels more than `spread` apart: a grey.
pub open spec fn greyish(color: [u8; 3], spread: int) -> bool {
    &&& color[0] - color[1] <= spread && color[1] - color[0] <= spread
    &&& color[1] - color[2] <= spread && color[2] - color[1] <= spread
    &&& color[0] - color[2] <= spread && color[2] - color[0] <= spread
}

/// Every channel of `a` is below that of `b`.
pub open spec fn darker(a: [u8; 3], b: [u8; 3]) -> bool {
    a[0] < b[0] && a[1] < b[1] && a[2] < b[2]
}

/// Every channel is at least `level`: close to white.
pub open spec fn light(color: [u8; 3], level: u8) -> bool {
    color[0] >= level && color[1] >= level && color[2] >= level
}

/// What each palette's ramp looks like, as its name and documentation say:
/// grey runs black to white; blue-red runs from blue through near white to
/// red; heat climbs from black through a dark red and an orange to white;
/// crimson climbs and is red at every stop; azure climbs and is blue at
/// every stop;
/// terrain runs through its six stages: deep water, then lighter shallow
/// water, sand, grass, grey rock and near white snow.
pub open spec fn ramp_shape(palette: Palette, stops: Seq<[u8; 3]>) -> bool {
    &&& stops.len() >= 2
    &&& match palette {
        Palette::Gray => {
            &&& stops[0] == [0u8, 0u8, 0u8]
            &&& stops.last() == [255u8, 255u8, 255u8]
            &&& climbs(stops)
        },
        Palette::BlueRed => {
            &&& bluish(stops[0])
            &&& light(stops[(stops.len() / 2) as int], 240)
            &&& reddish(stops.last())
        },
        Palette::Heat => {
            &&& stops[0] == [0u8, 0u8, 0u8]
            &&& reddish(stops[1])
            &&& stops[2][0] > stops[2][1] > stops[2][2]
            &&& stops.last() == [255u8, 255u8, 255u8]
            &&& climbs(stops)
        },
        Palette::Crimson => {
            &&& climbs(stops)
            &&& forall|k: int| 0 <= k < stops.len() ==> reddish(#[trigger] stops[k])
        },
        Palette::Azure => {
            &&& climbs(stops)
            &&& forall|k: int| 0 <= k < stops.len() ==> bluish(#[trigger] stops[k])
        },
        Palette::Terrain => {
            &&& stops.len() == 6
            &&& bluish(stops[0])
            &&& bluish(stops[1])
            &&& darker(stops[0], stops[1])
            &&& yellowish(stops[2])
            &&& greenish(stops[3])
            &&& greyish(stops[4], 20)
            &&& light(stops[5], 250)
        },
    }
}

/// Each palette's stops have the shape its name promises: see
/// [`ramp_shape`].
pub proof fn lemma_palettes_have_their_shape(palette: Palette)
    ensures
        ramp_shape(palette, palette_stops(palette)),
{
    let stops = palette_stops(palette);
    match palette {
        Palette::Gray => {
            assert(climbs(stops));
        },
        Palette::BlueRed => {
            assert(stops.len() / 2 == 1);
        },
        Palette::Heat => {
            assert(climbs(stops));
        },
        Palette::Crimson => {
            assert(climbs(stops));
            assert forall|k: int| 0 <= k < stops.len() implies reddish(#[trigger] stops[k]) by {}
        },
        Palette::Azure => {
            assert(climbs(stops));
            assert forall|k: int| 0 <= k < stops.len() implies bluish(#[trigger] stops[k]) by {}
        },
        Palette::Terrain => {},
    }
}

impl Palette {
    /// Evenly spaced colours to interpolate between, darkest or lowest
    /// first.
    pub fn stops(&self) -> (stops: Vec<[u8; 3]>)
        ensures
            stops@ == palette_stops(*self),
            ramp_shape(*self, stops@),
    {
        proof {
            lemma_palettes_have_their_shape(*self);
        }
        match self {
            Palette::Gray => vec![[0, 0, 0], [255, 255, 255]],
            Palette::BlueRed => vec![[33, 102, 172], [247, 247, 247], [178, 24, 43]],
            Palette::Heat => vec![
                [0, 0, 0],
                [128, 0, 0],
                [255, 80, 0],
                [255, 200, 0],
                [255, 255, 255],
            ],
            // Deep red to pink with no black at all: in a relief the dark
            // belongs to the shading, and a ramp that dives into black instead
            // draws a hard edge wherever the surface dips.
            Palette::Crimson => vec![
                [92, 13, 33],
                [122, 16, 40],
                [148, 18, 46],
                [170, 21, 54],
                [188, 25, 62],
                [202, 31, 72],
                [214, 40, 86],
                [226, 58, 104],
            ],
            // The same climb in blue, likewise with no black in it.
            Palette::Azure => vec![
                [12, 30, 88],
                [15, 38, 118],
                [18, 46, 146],
                [22, 56, 172],
                [28, 68, 192],
                [38, 84, 208],
                [54, 104, 220],
                [78, 132, 234],
            ],
            Palette::Terrain => vec![
                [12, 44, 92],
                [40, 110, 170],
                [214, 199, 138],
                [92, 148, 74],
                [120, 110, 100],
                [250, 250, 250],
            ],
        }
    }
}

/// What an image is: its size and its bytes.
pub struct ImageView {
    pub width: usize,
    pub height: usize,
    pub channels: usize,
    pub pixels: Seq<u8>,
}

/// An 8 bit image, rows top to bottom, `channels` bytes per pixel.
pub struct Image {
    width: usize,
    height: usize,
    channels: usize,
    pixels: Vec<u8>,
}

impl View for Image {
    type V = ImageView;

    closed spec fn view(&self) -> ImageView {
        ImageView { width: self.width, height: self.height, channels: self.channels, pixels: self.pixels@ }
    }
}

/// Bytes an image of this size holds.
pub open spec fn image_len(width: usize, height: usize, channels: usize) -> int {
    width * height * channels
}

/// Where the bytes of pixel (`x`, `y`) start.
pub open spec fn pixel_start(width: usize, channels: usize, x: usize, y: usize) -> int {
    (y * width + x) * channels
}

impl Image {
    #[verifier::type_invariant]
    spec fn whole(self) -> bool {
        &&& self.pixels@.len() == image_len(self.width, self.height, self.channels)
        &&& self.width * self.height <= usize::MAX
    }

    /// An image of `width` by `height` pixels holding `pixels`, or `None` if
    /// the buffer does not hold exactly `channels` bytes for every pixel, or
    /// if the pixels cannot be counted in a `usize`.
    pub fn from_pixels(width: usize, height: usize, channels: usize, pixels: Vec<u8>) -> (image: Option<Image>)
        ensures
            match image {
                Some(made) => {
                    &&& made@.width == width
                    &&& made@.height == height
                    &&& made@.channels == channels
                    &&& made@.pixels == pixels@
                },
                None => pixels@.len() != image_len(width, height, channels) || width * height > usize::MAX,
            },
    {
        let len = pixels.len();
        let area = match width.checked_mul(height) {
            Some(area) => area,
            None => {
                return None;
            },
        };
        match area.checked_mul(channels) {
            Some(total) => {
                if total == pixels.len() {
                    let image = Image { width, height, channels, pixels };
                    Some(image)
                } else {
                    None
                }
            },
            None => None,
        }
    }

    /// Pixels across.
    pub fn width(&self) -> (width: usize)
        ensures
            width == self@.width,
    {
        self.width
    }

    /// Pixels down.
    pub fn height(&self) -> (height: usize)
        ensures
            height == self@.height,
    {
        self.height
    }

    /// Bytes per pixel: 1 for greyscale, 3 for colour.
    pub fn channels(&self) -> (channels: usize)
        ensures
            channels == self@.channels,
    {
        self.channels
    }

    /// The whole buffer, row-major.
    pub fn pixels(&self) -> (pixels: &[u8])
        ensures
            pixels@ == self@.pixels,
            pixels@.len() == image_len(self@.width, self@.height, self@.channels),
    {
        proof {
            use_type_invariant(self);
        }
        self.pixels.as_slice()
    }

    /// Consumes the image and returns its buffer.
    pub fn into_pixels(self) -> (pixels: Vec<u8>)
        ensures
            pixels@ == self@.pixels,
            pixels@.len() == image_len(self@.width, self@.height, self@.channels),
    {
        proof {
            use_type_invariant(&self);
        }
        self.pixels
    }

    /// One pixel's bytes, or `None` outside the image.
    pub fn pixel(&self, x: usize, y: usize) -> (bytes: Option<&[u8]>)
        ensures
            match bytes {
                Some(b) => {
                    &&& x < self@.width
                    &&& y < self@.height
                    &&& b@ == self@.pixels.subrange(
                        pixel_start(self@.width, self@.channels, x, y),
                        pixel_start(self@.width, self@.channels, x, y) + self@.channels,
                    )
                },
                None => x >= self@.width || y >= self@.height,
            },
    {
        proof {
            use_type_invariant(self);
        }
        if x >= self.width || y >= self.height {
            return None;
        }
        let (w, h, c) = (self.width, self.height, self.channels);
        let len = self.pixels.len();
        proof {
            assert(y * w + x < w * h && 0 <= y * w) by (nonlinear_arith)
                requires
                    x < w,
                    y < h,
            {
                assert((y + 1) * w <= h * w);
            }
            assert((y * w + x) * c + c <= w * h * c && 0 <= (y * w + x) * c) by (nonlinear_arith)
                requires
                    y * w + x < w * h,
                    0 <= y * w + x,
            {
                assert((y * w + x + 1) * c <= (w * h) * c);
            }
        }
        let start = (y * w + x) * c;
        Some(vstd::slice::slice_subrange(self.pixels.as_slice(), start, start + c))
    }
}

} // verus!
