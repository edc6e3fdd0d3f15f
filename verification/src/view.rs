//! The screen: one panel for each channel, with the level meter on the left and
//! the scope on the right.

use crate::function::{total1, writes};
use crate::level::{
    amp_to_dbfs, is_meter_line, lit_for, meter_line, MeterSpan, Tint, AMP_MIN_BITS,
};
use crate::packing::{MinMax, Stereo};
use crate::plot::{last_row_is_exact, scope_lines, scope_text, texts};
use crate::sample::Sample;
use crate::scope::ScopeHistory;
use ratatui::layout::{Constraint, Direction, Layout, Rect};
use ratatui::widgets::{Block, Borders};
use std::collections::VecDeque;
use vstd::prelude::*;

verus! {

/// The share of the screen height that a panel gets, in percent.
pub const PANEL_PERCENT: u16 = 50;

/// The width of the meter column, in cells.
pub const METER_WIDTH: u16 = 40;

/// The least width of the scope column, in cells. A panel that is narrower than
/// this stays empty.
pub const SCOPE_MIN_WIDTH: u16 = 8;

/// A rectangle of text cells.
#[derive(Clone, Copy, Debug, PartialEq, Eq, Structural)]
pub struct Area {
    /// The leftmost column.
    pub x: u16,
    /// The topmost row.
    pub y: u16,
    /// The number of columns.
    pub width: u16,
    /// The number of rows.
    pub height: u16,
}

/// The sum of two coordinates, held at the largest coordinate there is.
pub open spec fn clamped_sum(a: int, b: int) -> int {
    if a + b > u16::MAX {
        u16::MAX as int
    } else {
        a + b
    }
}

impl Area {
    /// The first column to the right.
    pub open spec fn right(self) -> int {
        clamped_sum(self.x as int, self.width as int)
    }

    /// The first row below.
    pub open spec fn bottom(self) -> int {
        clamped_sum(self.y as int, self.height as int)
    }

    /// Whether this area lies within another one.
    pub open spec fn within(self, outer: Area) -> bool {
        &&& outer.x <= self.x
        &&& self.right() <= outer.right()
        &&& outer.y <= self.y
        &&& self.bottom() <= outer.bottom()
    }

    /// The area inside of a border that is one cell wide.
    pub open spec fn inside_border(self) -> Area {
        Area {
            x: if self.x + 1 < self.right() {
                (self.x + 1) as u16
            } else {
                self.right() as u16
            },
            y: if self.y + 1 < self.bottom() {
                (self.y + 1) as u16
            } else {
                self.bottom() as u16
            },
            width: if self.width >= 2 {
                (self.width - 2) as u16
            } else {
                0
            },
            height: if self.height >= 2 {
                (self.height - 2) as u16
            } else {
                0
            },
        }
    }
}

/// Two parts that an area has been cut into, one above the other, by shares of
/// its height in percent. Where the shares make up the whole, the parts do too,
/// and the cut is rounded to the nearest row.
pub open spec fn stacked(
    area: Area,
    upper_percent: int,
    lower_percent: int,
    upper: Area,
    lower: Area,
) -> bool {
    &&& upper.x == area.x && upper.width == area.width && upper.within(area)
    &&& lower.x == area.x && lower.width == area.width && lower.within(area)
    &&& upper_percent + lower_percent == 100 && area.y + area.height <= u16::MAX ==> {
        &&& upper.y == area.y
        &&& upper.height == (area.height * upper_percent + 50) / 100
        &&& lower.y == area.y + upper.height
        &&& lower.height == area.height - upper.height
    }
}

/// Two parts that an area has been cut into, side by side: the right one gets at
/// least its minimum, the left one as much of its width as that leaves, and the
/// right one the rest.
pub open spec fn abreast(
    area: Area,
    left_width: int,
    right_min_width: int,
    left: Area,
    right: Area,
) -> bool {
    &&& left.y == area.y && left.height == area.height && left.within(area)
    &&& right.y == area.y && right.height == area.height && right.within(area)
    &&& right_min_width <= area.width && area.x + area.width <= u16::MAX ==> {
        &&& left.x == area.x
        &&& left.width == (if left_width <= area.width - right_min_width {
            left_width
        } else {
            area.width - right_min_width
        })
        &&& right.x == area.x + left.width
        &&& right.width == area.width - left.width
    }
}

/// Trusted: `ratatui::layout::Layout::split` with a vertical direction and two
/// percentages. It gives two areas that have the columns of the given area and
/// lie within it. Shares that make up the whole can both be met, and then they
/// are; `Layout` rounds the row of the cut. The contract does not say what other
/// shares give, nor what an area gives that reaches beyond the last coordinate.
#[verifier::external_body]
fn split_rows(area: Area, upper_percent: u16, lower_percent: u16) -> (parts: (Area, Area))
    requires
        upper_percent <= 100,
        lower_percent <= 100,
    ensures
        stacked(area, upper_percent as int, lower_percent as int, parts.0, parts.1),
{
    let rect = Rect { x: area.x, y: area.y, width: area.width, height: area.height };
    let sizes = [Constraint::Percentage(upper_percent), Constraint::Percentage(lower_percent)];
    let cut = Layout::default().direction(Direction::Vertical).constraints(sizes).split(rect);
    (
        Area { x: cut[0].x, y: cut[0].y, width: cut[0].width, height: cut[0].height },
        Area { x: cut[1].x, y: cut[1].y, width: cut[1].width, height: cut[1].height },
    )
}

/// Trusted: `ratatui::layout::Layout::split` with a horizontal direction, a
/// length and a minimum. It gives two areas that have the rows of the given area
/// and lie within it. A minimum comes before a length, and what neither asks for
/// goes to the part with the minimum. The contract does not say what an area
/// gives that is too narrow for the minimum or reaches beyond the last
/// coordinate.
#[verifier::external_body]
fn split_columns(area: Area, left_width: u16, right_min_width: u16) -> (parts: (Area, Area))
    requires
        left_width <= i16::MAX,
        right_min_width <= i16::MAX,
    ensures
        abreast(area, left_width as int, right_min_width as int, parts.0, parts.1),
{
    let rect = Rect { x: area.x, y: area.y, width: area.width, height: area.height };
    let sizes = [Constraint::Length(left_width), Constraint::Min(right_min_width)];
    let cut = Layout::default().direction(Direction::Horizontal).constraints(sizes).split(rect);
    (
        Area { x: cut[0].x, y: cut[0].y, width: cut[0].width, height: cut[0].height },
        Area { x: cut[1].x, y: cut[1].y, width: cut[1].width, height: cut[1].height },
    )
}

/// Trusted: `ratatui::widgets::Block::inner` of a block with borders on all
/// sides and no padding. It takes one cell off on each side; an area that is too
/// small becomes empty.
#[verifier::external_body]
fn block_inner(area: Area) -> (inner: Area)
    ensures
        inner == area.inside_border(),
{
    let rect = Rect { x: area.x, y: area.y, width: area.width, height: area.height };
    let inner = Block::default().borders(Borders::ALL).inner(rect);
    Area { x: inner.x, y: inner.y, width: inner.width, height: inner.height }
}

/// One of the two channels.
#[derive(Clone, Copy, Debug, PartialEq, Eq, Structural)]
pub enum Side {
    /// The left channel.
    Left,
    /// The right channel.
    Right,
}

impl Side {
    /// The title of the panel.
    pub open spec fn title_spec(self) -> Seq<char> {
        match self {
            Side::Left => "Left"@,
            Side::Right => "Right"@,
        }
    }

    /// The label of the meter.
    pub open spec fn label_spec(self) -> Seq<char> {
        match self {
            Side::Left => "L"@,
            Side::Right => "R"@,
        }
    }

    /// The title of the panel.
    pub fn title(self) -> (title: String)
        ensures
            title@ == self.title_spec(),
    {
        match self {
            Side::Left => "Left".to_owned(),
            Side::Right => "Right".to_owned(),
        }
    }

    /// The label of the meter.
    pub fn label(self) -> (label: String)
        ensures
            label@ == self.label_spec(),
    {
        match self {
            Side::Left => "L".to_owned(),
            Side::Right => "R".to_owned(),
        }
    }
}

/// The arithmetic on amplitudes that drawing needs.
pub struct DrawMath<D, W> {
    /// The level of an amplitude, in decibels.
    pub decibels: D,
    /// A level as a decimal number with one decimal place.
    pub decimal: W,
}

impl<D: Fn(Sample) -> Sample, W: Fn(Sample) -> String> DrawMath<D, W> {
    /// The closures take every argument.
    pub open spec fn wf(self) -> bool {
        total1(self.decibels) && total1(self.decimal)
    }
}

/// What a panel shows inside of its border.
pub struct ChannelBody {
    /// Where the meter goes: a single row.
    pub meter_area: Area,
    /// The line of the meter.
    pub meter: Vec<MeterSpan>,
    /// Where the scope goes.
    pub scope_area: Area,
    /// The rows of the scope.
    pub lines: Vec<String>,
    /// The color of the scope.
    pub scope_tint: Tint,
}

/// One panel.
pub struct ChannelView {
    /// The channel that it shows.
    pub side: Side,
    /// Where its border goes.
    pub area: Area,
    /// What is inside; nothing if there is too little room.
    pub body: Option<ChannelBody>,
}

/// The columns of the meter and of the scope inside of a panel.
pub open spec fn panel_columns(panel: Area, meter_column: Area, scope_column: Area) -> bool {
    abreast(
        panel.inside_border(),
        METER_WIDTH as int,
        SCOPE_MIN_WIDTH as int,
        meter_column,
        scope_column,
    )
}

/// The panels of the two channels on the screen.
pub open spec fn panels(screen: Area, upper: Area, lower: Area) -> bool {
    stacked(screen, PANEL_PERCENT as int, PANEL_PERCENT as int, upper, lower)
}

/// The row in the middle of a column of the panel; of two, the upper one.
pub open spec fn middle_row(column: Area) -> Area {
    Area {
        x: column.x,
        y: clamped_sum(
            column.y as int,
            (if column.height >= 1 {
                column.height - 1
            } else {
                0
            }) / 2,
        ) as u16,
        width: column.width,
        height: 1,
    }
}

impl ChannelBody {
    /// What the inside of a panel shows for a channel whose level is written as
    /// `number` and lights `lit` segments, given its two columns.
    pub open spec fn shows(
        self,
        meter_column: Area,
        scope_column: Area,
        side: Side,
        number: Seq<char>,
        lit: int,
        trace: Seq<MinMax>,
    ) -> bool {
        &&& self.meter_area == middle_row(meter_column)
        &&& is_meter_line(self.meter@, side.label_spec(), number, lit)
        &&& self.scope_area == scope_column
        &&& texts(self.lines@) == scope_text(
            trace,
            scope_column.width as nat,
            scope_column.height as nat,
        )
        &&& self.scope_tint == Tint::Green
    }
}

impl ChannelView {
    /// What the panel of one channel shows in the given area, if the level is
    /// written as `number` and lights `lit` segments.
    pub open spec fn shows(
        self,
        area: Area,
        side: Side,
        number: Seq<char>,
        lit: int,
        trace: Seq<MinMax>,
    ) -> bool {
        &&& self.side == side
        &&& self.area == area
        &&& match self.body {
            None => area.inside_border().width < SCOPE_MIN_WIDTH || area.inside_border().height < 1,
            Some(body) => {
                &&& area.inside_border().width >= SCOPE_MIN_WIDTH
                &&& area.inside_border().height >= 1
                &&& exists|meter_column: Area, scope_column: Area|
                    #[trigger] panel_columns(area, meter_column, scope_column) && body.shows(
                        meter_column,
                        scope_column,
                        side,
                        number,
                        lit,
                        trace,
                    )
            },
        }
    }

    /// What the panel of one channel shows at level `db`, which `decimal` writes as
    /// a number.
    pub open spec fn shows_level<W: Fn(Sample) -> String>(
        self,
        area: Area,
        side: Side,
        db: Sample,
        trace: Seq<MinMax>,
        decimal: W,
    ) -> bool {
        exists|number: Seq<char>|
            #[trigger] self.shows(area, side, number, lit_for(db) as int, trace) && (
            self.body is Some ==> writes(decimal, db, number))
    }

    /// What the panel of one channel shows at the given amplitude.
    pub open spec fn shows_amplitude<D: Fn(Sample) -> Sample, W: Fn(Sample) -> String>(
        self,
        area: Area,
        side: Side,
        amp: Sample,
        trace: Seq<MinMax>,
        math: DrawMath<D, W>,
    ) -> bool {
        exists|db: Sample|
            #[trigger] call_ensures(
                math.decibels,
                (amp.greater_spec(Sample { bits: AMP_MIN_BITS }),),
                db,
            ) && self.shows_level(area, side, db, trace, math.decimal)
    }
}

/// Lays out the inside of a panel in the two given columns.
pub fn channel_body<W: Fn(Sample) -> String>(
    meter_column: Area,
    scope_column: Area,
    side: Side,
    db: Sample,
    trace: &VecDeque<MinMax>,
    decimal: &W,
) -> (body: ChannelBody)
    requires
        total1(*decimal),
    ensures
        exists|number: Seq<char>|
            #[trigger] writes(*decimal, db, number) && body.shows(
                meter_column,
                scope_column,
                side,
                number,
                lit_for(db) as int,
                trace@,
            ),
{
    let above: u16 = meter_column.height.saturating_sub(1) / 2;
    let meter_area: Area = Area {
        x: meter_column.x,
        y: meter_column.y.saturating_add(above),
        width: meter_column.width,
        height: 1,
    };
    let meter: Vec<MeterSpan> = meter_line(&side.label(), db, decimal);
    proof {
        if scope_column.height > 0 {
            last_row_is_exact((4 * scope_column.height) as nat);
        }
    }
    let lines: Vec<String> = scope_lines(
        trace,
        scope_column.width as usize,
        scope_column.height as usize,
    );
    ChannelBody { meter_area, meter, scope_area: scope_column, lines, scope_tint: Tint::Green }
}

/// Lays out the panel of one channel in the given area.
pub fn render_channel<W: Fn(Sample) -> String>(
    area: Area,
    side: Side,
    db: Sample,
    trace: &VecDeque<MinMax>,
    decimal: &W,
) -> (view: ChannelView)
    requires
        total1(*decimal),
    ensures
        view.shows_level(area, side, db, trace@, *decimal),
{
    let inner: Area = block_inner(area);
    if inner.width < SCOPE_MIN_WIDTH || inner.height < 1 {
        let view: ChannelView = ChannelView { side, area, body: None };
        assert(view.shows(area, side, Seq::empty(), lit_for(db) as int, trace@));
        return view;
    }
    let (meter_column, scope_column): (Area, Area) = split_columns(
        inner,
        METER_WIDTH,
        SCOPE_MIN_WIDTH,
    );
    assert(panel_columns(area, meter_column, scope_column));
    let body: ChannelBody = channel_body(meter_column, scope_column, side, db, trace, decimal);
    let ghost number = choose|number: Seq<char>|
        #[trigger] writes(*decimal, db, number) && body.shows(
            meter_column,
            scope_column,
            side,
            number,
            lit_for(db) as int,
            trace@,
        );
    let view: ChannelView = ChannelView { side, area, body: Some(body) };
    assert(view.shows(area, side, number, lit_for(db) as int, trace@));
    view
}

/// Lays out the screen: the left channel above, the right channel below, each
/// with its level and its scope points.
pub fn render<D: Fn(Sample) -> Sample, W: Fn(Sample) -> String>(
    area: Area,
    stereo: Stereo,
    scope: &ScopeHistory,
    math: &DrawMath<D, W>,
) -> (views: (ChannelView, ChannelView))
    requires
        math.wf(),
    ensures
        exists|upper: Area, lower: Area|
            {
                &&& #[trigger] panels(area, upper, lower)
                &&& views.0.shows_amplitude(upper, Side::Left, stereo.l, scope.l@, *math)
                &&& views.1.shows_amplitude(lower, Side::Right, stereo.r, scope.r@, *math)
            },
{
    let (upper, lower): (Area, Area) = split_rows(area, PANEL_PERCENT, PANEL_PERCENT);
    assert(panels(area, upper, lower));
    let l_db: Sample = amp_to_dbfs(stereo.l, &math.decibels);
    let r_db: Sample = amp_to_dbfs(stereo.r, &math.decibels);
    let left: ChannelView = render_channel(upper, Side::Left, l_db, &scope.l, &math.decimal);
    let right: ChannelView = render_channel(lower, Side::Right, r_db, &scope.r, &math.decimal);
    (left, right)
}

/// Whatever is drawn stays on the screen: the inside of a panel lies within the
/// panel, and the meter row and the scope within the inside.
pub proof fn panels_stay_inside(
    view: ChannelView,
    area: Area,
    side: Side,
    number: Seq<char>,
    lit: int,
    trace: Seq<MinMax>,
)
    requires
        view.shows(area, side, number, lit, trace),
    ensures
        area.inside_border().within(area),
        view.body matches Some(body) ==> {
            &&& body.meter_area.within(area.inside_border())
            &&& body.scope_area.within(area.inside_border())
            &&& body.lines@.len() == (if body.scope_area.width == 0 {
                0
            } else {
                body.scope_area.height as nat
            })
        },
{
    if let Some(body) = view.body {
        let (meter_column, scope_column) = choose|meter_column: Area, scope_column: Area|
            #[trigger] panel_columns(area, meter_column, scope_column) && body.shows(
                meter_column,
                scope_column,
                side,
                number,
                lit,
                trace,
            );
        assert(texts(body.lines@).len() == body.lines@.len());
    }
}

/// The panels share the screen: they have all of its rows, the left channel the
/// upper half and the odd row, and all of its columns.
pub proof fn panels_share_the_screen(screen: Area, upper: Area, lower: Area)
    requires
        panels(screen, upper, lower),
        screen.y + screen.height <= u16::MAX,
    ensures
        upper == (Area {
            x: screen.x,
            y: screen.y,
            width: screen.width,
            height: ((screen.height + 1) / 2) as u16,
        }),
        lower == (Area {
            x: screen.x,
            y: (screen.y + (screen.height + 1) / 2) as u16,
            width: screen.width,
            height: (screen.height / 2) as u16,
        }),
{
}

/// The columns share the inside of a panel: the scope gets what the meter leaves
/// over, and never less than its minimum.
pub proof fn columns_share_the_panel(panel: Area, meter_column: Area, scope_column: Area)
    requires
        panel_columns(panel, meter_column, scope_column),
        panel.x + panel.width <= u16::MAX,
        panel.inside_border().width >= SCOPE_MIN_WIDTH,
    ensures
        meter_column.x == panel.x + 1,
        meter_column.width <= METER_WIDTH,
        scope_column.x == meter_column.x + meter_column.width,
        scope_column.width >= SCOPE_MIN_WIDTH,
        meter_column.width + scope_column.width == panel.width - 2,
        scope_column.width > SCOPE_MIN_WIDTH ==> meter_column.width == METER_WIDTH,
{
}

/// The names of the channels.
pub proof fn sides_have_names()
    ensures
        Side::Left.title_spec() == "Left"@,
        Side::Left.label_spec() == "L"@,
        Side::Right.title_spec() == "Right"@,
        Side::Right.label_spec() == "R"@,
{
}

/// What a border leaves of an area: one cell less on each side, and nothing of an area
/// that is too small.
pub proof fn borders_take_one_cell(area: Area)
    ensures
        area.width < 2 ==> area.inside_border().width == 0,
        area.height < 2 ==> area.inside_border().height == 0,
        area.width >= 2 ==> area.inside_border().width == area.width - 2,
        area.height >= 2 ==> area.inside_border().height == area.height - 2,
        area.width >= 2 && area.x + area.width <= 65535 ==> area.inside_border().x == area.x + 1,
        area.height >= 2 && area.y + area.height <= 65535 ==> area.inside_border().y == area.y + 1,
{
}

/// Everything that a panel shows, by its place. A panel of less than ten columns or
/// less than three rows has nothing inside of its border. Any other has the line of the
/// meter in the middle row, forty columns wide or as wide as eight columns for the
/// scope leave, and the scope in green to the right of it, over all rows.
pub proof fn panels_are_laid_out(
    view: ChannelView,
    area: Area,
    side: Side,
    number: Seq<char>,
    lit: int,
    trace: Seq<MinMax>,
)
    requires
        view.shows(area, side, number, lit, trace),
        area.x + area.width <= 65535,
        area.y + area.height <= 65535,
    ensures
        view.area == area,
        view.side == side,
        view.body is None <==> area.width < 10 || area.height < 3,
        view.body matches Some(body) ==> {
            let columns: int = if area.width >= 50 {
                40
            } else {
                area.width - 10
            };
            &&& body.meter_area.x == area.x + 1
            &&& body.meter_area.y == area.y + 1 + (area.height - 3) / 2
            &&& body.meter_area.width == columns
            &&& body.meter_area.height == 1
            &&& body.scope_area.x == area.x + 1 + columns
            &&& body.scope_area.y == area.y + 1
            &&& body.scope_area.width == area.width - 2 - columns
            &&& body.scope_area.height == area.height - 2
            &&& side is Left ==> is_meter_line(body.meter@, "L"@, number, lit)
            &&& side is Right ==> is_meter_line(body.meter@, "R"@, number, lit)
            &&& texts(body.lines@) == scope_text(
                trace,
                (area.width - 2 - columns) as nat,
                (area.height - 2) as nat,
            )
            &&& body.scope_tint is Green
        },
{
    if let Some(body) = view.body {
        let (meter_column, scope_column) = choose|meter_column: Area, scope_column: Area|
            #[trigger] panel_columns(area, meter_column, scope_column) && body.shows(
                meter_column,
                scope_column,
                side,
                number,
                lit,
                trace,
            );
        assert(panel_columns(area, meter_column, scope_column));
        columns_share_the_panel(area, meter_column, scope_column);
    }
}

/// Where a panel gets its level from: the amplitude, or one thousand-millionth if that
/// is larger or the amplitude is no number, is turned into decibels, and these are
/// what the text and the segments show.
pub proof fn panels_show_their_amplitude<D: Fn(Sample) -> Sample, W: Fn(Sample) -> String>(
    view: ChannelView,
    area: Area,
    side: Side,
    amp: Sample,
    trace: Seq<MinMax>,
    math: DrawMath<D, W>,
)
    requires
        view.shows_amplitude(area, side, amp, trace, math),
    ensures
        exists|heard: Sample, db: Sample, number: Seq<char>|
            {
                &&& #[trigger] call_ensures(math.decibels, (heard,), db)
                &&& #[trigger] view.shows(area, side, number, lit_for(db) as int, trace)
                &&& heard == amp || heard.bits == 0x3089_705f
                &&& !heard.below(Sample { bits: 0x3089_705f })
                &&& !heard.below(amp)
                &&& heard.bits as int % 0x8000_0000 <= 0x7f80_0000
                &&& view.body is Some ==> exists|r: String| #[trigger]
                    call_ensures(math.decimal, (db,), r) && r@ == number
            },
        total1(math.decibels) && total1(math.decimal) ==> math.wf(),
{
    let least = Sample { bits: 0x3089_705f };
    let heard = amp.greater_spec(least);
    let db = choose|db: Sample|
        #[trigger] call_ensures(math.decibels, (heard,), db) && view.shows_level(
            area,
            side,
            db,
            trace,
            math.decimal,
        );
    let number = choose|number: Seq<char>|
        #[trigger] view.shows(area, side, number, lit_for(db) as int, trace) && (view.body is Some
            ==> writes(math.decimal, db, number));
    crate::sample::lesser_and_greater_bound(amp, least);
    crate::sample::order_is_by_bits(heard, least);
    assert(call_ensures(math.decibels, (heard,), db));
    assert(view.shows(area, side, number, lit_for(db) as int, trace));
}

} // verus!
