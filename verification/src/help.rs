//! The help page: how the program is called, and what requests and answers hold.

use vstd::prelude::*;

verus! {

/// A field of a request or an answer, with the fields inside it.
pub struct ParamNode {
    pub name: &'static str,
    pub type_label: &'static str,
    pub required: bool,
    pub description: &'static str,
    pub children: Vec<ParamNode>,
}

/// What a field tells.
pub ghost struct NodeView {
    pub name: Seq<char>,
    pub type_label: Seq<char>,
    pub required: bool,
    pub description: Seq<char>,
    pub children: Seq<NodeView>,
}

/// A field without fields inside it.
pub open spec fn leaf_view(
    name: Seq<char>,
    type_label: Seq<char>,
    required: bool,
    description: Seq<char>,
) -> NodeView {
    NodeView { name, type_label, required, description, children: Seq::empty() }
}

/// A field with fields inside it.
pub open spec fn group_view(
    name: Seq<char>,
    type_label: Seq<char>,
    required: bool,
    description: Seq<char>,
    children: Seq<NodeView>,
) -> NodeView {
    NodeView { name, type_label, required, description, children }
}

/// Whether a field tells what it should.
pub open spec fn shows(node: ParamNode, view: NodeView) -> bool
    decreases view,
{
    &&& node.name@ == view.name
    &&& node.type_label@ == view.type_label
    &&& node.required == view.required
    &&& node.description@ == view.description
    &&& node.children@.len() == view.children.len()
    &&& forall|i: int|
        0 <= i < view.children.len() ==> shows(
            #[trigger] node.children@[i],
            view.children[i],
        )
}

/// Whether all fields tell what they should.
pub open spec fn shows_all(nodes: Seq<ParamNode>, views: Seq<NodeView>) -> bool {
    nodes.len() == views.len() && forall|i: int|
        0 <= i < views.len() ==> shows(#[trigger] nodes[i], views[i])
}

fn no_fields() -> (nodes: Vec<ParamNode>)
    ensures
        shows_all(nodes@, Seq::<NodeView>::empty()),
{
    Vec::new()
}

fn push_leaf(
    nodes: &mut Vec<ParamNode>,
    name: &'static str,
    type_label: &'static str,
    required: bool,
    description: &'static str,
)
    ensures
        forall|views: Seq<NodeView>| #[trigger]
            shows_all(old(nodes)@, views) ==> shows_all(
                final(nodes)@,
                views.push(leaf_view(name@, type_label@, required, description@)),
            ),
{
    push_group(nodes, name, type_label, required, description, no_fields());
}

fn push_group(
    nodes: &mut Vec<ParamNode>,
    name: &'static str,
    type_label: &'static str,
    required: bool,
    description: &'static str,
    children: Vec<ParamNode>,
)
    ensures
        forall|views: Seq<NodeView>, inner: Seq<NodeView>| #[trigger]
            shows_all(old(nodes)@, views) && #[trigger] shows_all(children@, inner) ==> shows_all(
                final(nodes)@,
                views.push(group_view(name@, type_label@, required, description@, inner)),
            ),
{
    let node: ParamNode = ParamNode { name, type_label, required, description, children };
    let ghost before = nodes@;
    let ghost added = node;
    nodes.push(node);
    proof {
        assert forall|views: Seq<NodeView>, inner: Seq<NodeView>| #[trigger]
            shows_all(before, views) && #[trigger] shows_all(children@, inner) implies shows_all(
            nodes@,
            views.push(group_view(name@, type_label@, required, description@, inner)),
        ) by {
            let view = group_view(name@, type_label@, required, description@, inner);
            let more = views.push(view);
            assert(shows(added, view)) by {
                assert forall|i: int| 0 <= i < view.children.len() implies shows(
                    #[trigger] added.children@[i],
                    view.children[i],
                ) by {
                    assert(shows(children@[i], inner[i]));
                }
            }
            assert forall|i: int| 0 <= i < more.len() implies shows(
                #[trigger] nodes@[i],
                more[i],
            ) by {
                if i < before.len() {
                    assert(shows(before[i], views[i]));
                }
            }
        }
    }
}

/// A text filled up with spaces to a width.
pub open spec fn padded(text: Seq<char>, width: int) -> Seq<char> {
    text + spaces(width - text.len())
}

/// A number of spaces.
pub open spec fn spaces(n: int) -> Seq<char>
    decreases n,
{
    if n <= 0 {
        Seq::empty()
    } else {
        spaces(n - 1) + " "@
    }
}

fn append_padded(out: &mut String, text: &str, width: usize)
    ensures
        final(out)@ == old(out)@ + padded(text@, width as int),
{
    let ghost before = out@;
    out.append(text);
    let n: usize = text.unicode_len();
    let mut k: usize = n;
    assert(out@ =~= before + text@ + spaces(0));
    while k < width
        invariant
            n == text@.len(),
            n <= k,
            k <= width || k == n,
            out@ == before + text@ + spaces(k - n),
        decreases width - k,
    {
        out.append(" ");
        k = k + 1;
        assert(out@ =~= before + text@ + spaces(k - n));
    }
    assert(spaces(width - n) =~= spaces(k - n));
    assert(out@ =~= before + padded(text@, width as int));
}

/// Length of the longest name of the first `k` fields.
pub open spec fn widest(views: Seq<NodeView>, k: int) -> int
    decreases k,
{
    if k <= 0 {
        0
    } else {
        let before = widest(views, k - 1);
        let n = views[k - 1].name.len() as int;
        if n > before {
            n
        } else {
            before
        }
    }
}

/// Width of the column of names.
pub fn col_width(nodes: &Vec<ParamNode>) -> (r: usize)
    ensures
        forall|views: Seq<NodeView>| #[trigger]
            shows_all(nodes@, views) ==> r == widest(views, views.len() as int),
{
    let mut width: usize = 0;
    let mut k: usize = 0;
    while k < nodes.len()
        invariant
            k <= nodes@.len(),
            forall|views: Seq<NodeView>| #[trigger]
                shows_all(nodes@, views) ==> width == widest(views, k as int),
        decreases nodes.len() - k,
    {
        let n: usize = nodes[k].name.unicode_len();
        let ghost before = width;
        if n > width {
            width = n;
        }
        k = k + 1;
        proof {
            assert forall|views: Seq<NodeView>| #[trigger]
                shows_all(nodes@, views) implies width == widest(views, k as int) by {
                assert(shows(nodes@[k - 1], views[k - 1]));
                assert(before == widest(views, k - 1));
            }
        }
    }
    width
}

/// The line of a field: a star if it is required, its name and its type in
/// columns, and what it is.
pub open spec fn node_line(view: NodeView, indent: Seq<char>, width: int) -> Seq<char> {
    indent + (if view.required {
        "* "@
    } else {
        "  "@
    }) + padded(view.name, width) + " : "@ + padded(view.type_label, 24) + " "@
        + view.description + "\n"@
}

/// The lines of the first `k` fields, each followed by those of the fields inside
/// it, two columns further in.
pub open spec fn tree_text(views: Seq<NodeView>, indent: Seq<char>, k: int) -> Seq<char>
    decreases views, k,
{
    if k <= 0 || k > views.len() {
        Seq::empty()
    } else {
        let view = views[k - 1];
        tree_text(views, indent, k - 1) + node_line(
            view,
            indent,
            widest(views, views.len() as int),
        ) + tree_text(view.children, indent + "  "@, view.children.len() as int)
    }
}

/// The lines of fields.
pub open spec fn lines_of(views: Seq<NodeView>, indent: Seq<char>) -> Seq<char> {
    tree_text(views, indent, views.len() as int)
}

fn append_line(out: &mut String, node: &ParamNode, indent: &str, width: usize)
    ensures
        forall|view: NodeView| #[trigger]
            shows(*node, view) ==> final(out)@ == old(out)@ + node_line(
                view,
                indent@,
                width as int,
            ),
{
    let ghost before = out@;
    out.append(indent);
    out.append(if node.required { "* " } else { "  " });
    append_padded(out, node.name, width);
    out.append(" : ");
    append_padded(out, node.type_label, 24);
    out.append(" ");
    out.append(node.description);
    out.append("\n");
    proof {
        assert forall|view: NodeView| #[trigger] shows(*node, view) implies out@ == before
            + node_line(view, indent@, width as int) by {
            assert(out@ =~= before + node_line(view, indent@, width as int));
        }
    }
}

/// Renders fields as lines in columns.
pub fn render_tree(nodes: &Vec<ParamNode>, indent: &str) -> (r: String)
    ensures
        forall|views: Seq<NodeView>| #[trigger]
            shows_all(nodes@, views) ==> r@ == lines_of(views, indent@),
    decreases nodes,
{
    let width: usize = col_width(nodes);
    let mut out: String = String::new();
    let mut k: usize = 0;
    while k < nodes.len()
        invariant
            k <= nodes@.len(),
            forall|views: Seq<NodeView>| #[trigger]
                shows_all(nodes@, views) ==> width == widest(views, views.len() as int),
            forall|views: Seq<NodeView>| #[trigger]
                shows_all(nodes@, views) ==> out@ == tree_text(views, indent@, k as int),
        decreases nodes.len() - k,
    {
        let ghost before = out@;
        append_line(&mut out, &nodes[k], indent, width);
        let ghost headed = out@;
        let mut inner: String = indent.to_owned();
        inner.append("  ");
        let below: String = render_tree(&nodes[k].children, inner.as_str());
        out.append(below.as_str());
        k = k + 1;
        proof {
            assert forall|views: Seq<NodeView>| #[trigger]
                shows_all(nodes@, views) implies out@ == tree_text(views, indent@, k as int) by {
                let node = nodes@[k - 1];
                let view = views[k - 1];
                assert(shows(node, view));
                assert(shows_all(node.children@, view.children));
                assert(before == tree_text(views, indent@, k - 1));
                assert(headed == before + node_line(view, indent@, width as int));
                assert(below@ == lines_of(view.children, indent@ + "  "@));
            }
        }
    }
    out
}

/// The fields of `start`.
pub open spec fn request_aircraft_start_views() -> Seq<NodeView> {
    seq![
        leaf_view("lon"@, "f64"@, true, "经度（度，WGS84）"@),
        leaf_view("lat"@, "f64"@, true, "纬度（度，WGS84）"@),
        leaf_view("alt_m"@, "f64"@, true, "高程（米，MSL）"@),
    ]
}

fn request_aircraft_start() -> (nodes: Vec<ParamNode>)
    ensures
        shows_all(nodes@, request_aircraft_start_views()),
{
    let mut nodes: Vec<ParamNode> = no_fields();
    push_leaf(&mut nodes, "lon", "f64", true, "经度（度，WGS84）");
    push_leaf(&mut nodes, "lat", "f64", true, "纬度（度，WGS84）");
    push_leaf(&mut nodes, "alt_m", "f64", true, "高程（米，MSL）");
    nodes
}

/// The fields of `profile`.
pub open spec fn request_aircraft_profile_views() -> Seq<NodeView> {
    seq![
        leaf_view("aircraft_type"@, "string"@, true, "FIXED_WING / ROTORCRAFT"@),
        leaf_view("cruise_speed_mps"@, "f64"@, false, "巡航速度 m/s"@),
        leaf_view("speed_range_mps"@, "array<f64>"@, false, "[v_min, v_max] m/s"@),
        leaf_view("min_turn_radius_m"@, "f64"@, false, "最小转弯半径 m"@),
        leaf_view("max_climb_angle_deg"@, "f64"@, false, "最大爬升角 °"@),
        leaf_view("max_bank_deg"@, "f64"@, false, "最大坡度 °"@),
        leaf_view("ceiling_m"@, "f64"@, false, "升限 m"@),
    ]
}

fn request_aircraft_profile() -> (nodes: Vec<ParamNode>)
    ensures
        shows_all(nodes@, request_aircraft_profile_views()),
{
    let mut nodes: Vec<ParamNode> = no_fields();
    push_leaf(&mut nodes, "aircraft_type", "string", true, "FIXED_WING / ROTORCRAFT");
    push_leaf(&mut nodes, "cruise_speed_mps", "f64", false, "巡航速度 m/s");
    push_leaf(&mut nodes, "speed_range_mps", "array<f64>", false, "[v_min, v_max] m/s");
    push_leaf(&mut nodes, "min_turn_radius_m", "f64", false, "最小转弯半径 m");
    push_leaf(&mut nodes, "max_climb_angle_deg", "f64", false, "最大爬升角 °");
    push_leaf(&mut nodes, "max_bank_deg", "f64", false, "最大坡度 °");
    push_leaf(&mut nodes, "ceiling_m", "f64", false, "升限 m");
    nodes
}

/// The fields of `mid_waypoints`.
pub open spec fn request_aircraft_mid_waypoints_views() -> Seq<NodeView> {
    seq![
        leaf_view("lon"@, "f64"@, true, "经度"@),
        leaf_view("lat"@, "f64"@, true, "纬度"@),
        leaf_view("alt_m"@, "f64"@, true, "高度"@),
    ]
}

fn request_aircraft_mid_waypoints() -> (nodes: Vec<ParamNode>)
    ensures
        shows_all(nodes@, request_aircraft_mid_waypoints_views()),
{
    let mut nodes: Vec<ParamNode> = no_fields();
    push_leaf(&mut nodes, "lon", "f64", true, "经度");
    push_leaf(&mut nodes, "lat", "f64", true, "纬度");
    push_leaf(&mut nodes, "alt_m", "f64", true, "高度");
    nodes
}

/// The fields of `envelope`.
pub open spec fn request_aircraft_weapon_envelope_views() -> Seq<NodeView> {
    seq![
        leaf_view("heading_deg"@, "array<f64>"@, false, "航向角范围"@),
        leaf_view("alt_m"@, "array<f64>"@, false, "高度范围"@),
        leaf_view("speed_mps"@, "array<f64>"@, false, "速度范围"@),
    ]
}

fn request_aircraft_weapon_envelope() -> (nodes: Vec<ParamNode>)
    ensures
        shows_all(nodes@, request_aircraft_weapon_envelope_views()),
{
    let mut nodes: Vec<ParamNode> = no_fields();
    push_leaf(&mut nodes, "heading_deg", "array<f64>", false, "航向角范围");
    push_leaf(&mut nodes, "alt_m", "array<f64>", false, "高度范围");
    push_leaf(&mut nodes, "speed_mps", "array<f64>", false, "速度范围");
    nodes
}

/// The fields of `weapon`.
pub open spec fn request_aircraft_weapon_views() -> Seq<NodeView> {
    seq![
        leaf_view("weapon_type"@, "string"@, true, "aam / agm / bomb"@),
        leaf_view("range_km"@, "array<f64>"@, false, "[Rmin, Rmax] km"@),
        group_view("envelope"@, "object"@, false, "发射包线"@, request_aircraft_weapon_envelope_views()),
    ]
}

fn request_aircraft_weapon() -> (nodes: Vec<ParamNode>)
    ensures
        shows_all(nodes@, request_aircraft_weapon_views()),
{
    let mut nodes: Vec<ParamNode> = no_fields();
    push_leaf(&mut nodes, "weapon_type", "string", true, "aam / agm / bomb");
    push_leaf(&mut nodes, "range_km", "array<f64>", false, "[Rmin, Rmax] km");
    push_group(&mut nodes, "envelope", "object", false, "发射包线", request_aircraft_weapon_envelope());
    nodes
}

/// The fields of `aircraft`.
pub open spec fn request_aircraft_views() -> Seq<NodeView> {
    seq![
        leaf_view("id"@, "string"@, true, "飞行器 ID"@),
        group_view("start"@, "object"@, true, "起点"@, request_aircraft_start_views()),
        group_view("target"@, "object"@, true, "目标点"@, request_aircraft_start_views()),
        group_view("profile"@, "object"@, false, "机型性能参数"@, request_aircraft_profile_views()),
        group_view("mid_waypoints"@, "array<object>"@, false, "中途必经点"@, request_aircraft_mid_waypoints_views()),
        group_view("weapon"@, "object"@, false, "武器配置（出现即启用）"@, request_aircraft_weapon_views()),
    ]
}

fn request_aircraft() -> (nodes: Vec<ParamNode>)
    ensures
        shows_all(nodes@, request_aircraft_views()),
{
    let mut nodes: Vec<ParamNode> = no_fields();
    push_leaf(&mut nodes, "id", "string", true, "飞行器 ID");
    push_group(&mut nodes, "start", "object", true, "起点", request_aircraft_start());
    push_group(&mut nodes, "target", "object", true, "目标点", request_aircraft_start());
    push_group(&mut nodes, "profile", "object", false, "机型性能参数", request_aircraft_profile());
    push_group(&mut nodes, "mid_waypoints", "array<object>", false, "中途必经点", request_aircraft_mid_waypoints());
    push_group(&mut nodes, "weapon", "object", false, "武器配置（出现即启用）", request_aircraft_weapon());
    nodes
}

/// The fields of `radars`.
pub open spec fn request_red_forces_radars_views() -> Seq<NodeView> {
    seq![
        leaf_view("id"@, "string"@, true, "雷达 ID"@),
        leaf_view("lon"@, "f64"@, true, "经度"@),
        leaf_view("lat"@, "f64"@, true, "纬度"@),
        leaf_view("radius_km"@, "f64"@, true, "探测距离 km"@),
        leaf_view("alt_m"@, "f64"@, false, "天线高度 m（默认 10）"@),
        leaf_view("suppression_post_range_km"@, "f64"@, false, "压制后有效距离 km"@),
        leaf_view("suppression_factor"@, "f64"@, false, "压制因子 δ"@),
    ]
}

fn request_red_forces_radars() -> (nodes: Vec<ParamNode>)
    ensures
        shows_all(nodes@, request_red_forces_radars_views()),
{
    let mut nodes: Vec<ParamNode> = no_fields();
    push_leaf(&mut nodes, "id", "string", true, "雷达 ID");
    push_leaf(&mut nodes, "lon", "f64", true, "经度");
    push_leaf(&mut nodes, "lat", "f64", true, "纬度");
    push_leaf(&mut nodes, "radius_km", "f64", true, "探测距离 km");
    push_leaf(&mut nodes, "alt_m", "f64", false, "天线高度 m（默认 10）");
    push_leaf(&mut nodes, "suppression_post_range_km", "f64", false, "压制后有效距离 km");
    push_leaf(&mut nodes, "suppression_factor", "f64", false, "压制因子 δ");
    nodes
}

/// The fields of `red_forces`.
pub open spec fn request_red_forces_views() -> Seq<NodeView> {
    seq![
        group_view("radars"@, "array<object>"@, false, "雷达数组"@, request_red_forces_radars_views()),
    ]
}

fn request_red_forces() -> (nodes: Vec<ParamNode>)
    ensures
        shows_all(nodes@, request_red_forces_views()),
{
    let mut nodes: Vec<ParamNode> = no_fields();
    push_group(&mut nodes, "radars", "array<object>", false, "雷达数组", request_red_forces_radars());
    nodes
}

/// The fields of `circle`.
pub open spec fn request_no_fly_zones_shape_circle_views() -> Seq<NodeView> {
    seq![
        leaf_view("center"@, "array<f64,2>"@, true, "圆心 [lon, lat]"@),
        leaf_view("radius_km"@, "f64"@, true, "半径 km"@),
    ]
}

fn request_no_fly_zones_shape_circle() -> (nodes: Vec<ParamNode>)
    ensures
        shows_all(nodes@, request_no_fly_zones_shape_circle_views()),
{
    let mut nodes: Vec<ParamNode> = no_fields();
    push_leaf(&mut nodes, "center", "array<f64,2>", true, "圆心 [lon, lat]");
    push_leaf(&mut nodes, "radius_km", "f64", true, "半径 km");
    nodes
}

/// The fields of `polygon`.
pub open spec fn request_no_fly_zones_shape_polygon_views() -> Seq<NodeView> {
    seq![
        leaf_view("vertices"@, "array<array<f64,2>>"@, true, "顶点列表"@),
    ]
}

fn request_no_fly_zones_shape_polygon() -> (nodes: Vec<ParamNode>)
    ensures
        shows_all(nodes@, request_no_fly_zones_shape_polygon_views()),
{
    let mut nodes: Vec<ParamNode> = no_fields();
    push_leaf(&mut nodes, "vertices", "array<array<f64,2>>", true, "顶点列表");
    nodes
}

/// The fields of `shape`.
pub open spec fn request_no_fly_zones_shape_views() -> Seq<NodeView> {
    seq![
        group_view("circle"@, "object"@, false, ""@, request_no_fly_zones_shape_circle_views()),
        group_view("polygon"@, "object"@, false, ""@, request_no_fly_zones_shape_polygon_views()),
    ]
}

fn request_no_fly_zones_shape() -> (nodes: Vec<ParamNode>)
    ensures
        shows_all(nodes@, request_no_fly_zones_shape_views()),
{
    let mut nodes: Vec<ParamNode> = no_fields();
    push_group(&mut nodes, "circle", "object", false, "", request_no_fly_zones_shape_circle());
    push_group(&mut nodes, "polygon", "object", false, "", request_no_fly_zones_shape_polygon());
    nodes
}

/// The fields of `no_fly_zones`.
pub open spec fn request_no_fly_zones_views() -> Seq<NodeView> {
    seq![
        leaf_view("id"@, "string"@, true, "区域 ID"@),
        group_view("shape"@, "tagged-union"@, true, "circle / polygon"@, request_no_fly_zones_shape_views()),
        leaf_view("alt_min_m"@, "f64"@, false, "高度下界（仅限飞区）"@),
        leaf_view("alt_max_m"@, "f64"@, false, "高度上界（仅限飞区）"@),
    ]
}

fn request_no_fly_zones() -> (nodes: Vec<ParamNode>)
    ensures
        shows_all(nodes@, request_no_fly_zones_views()),
{
    let mut nodes: Vec<ParamNode> = no_fields();
    push_leaf(&mut nodes, "id", "string", true, "区域 ID");
    push_group(&mut nodes, "shape", "tagged-union", true, "circle / polygon", request_no_fly_zones_shape());
    push_leaf(&mut nodes, "alt_min_m", "f64", false, "高度下界（仅限飞区）");
    push_leaf(&mut nodes, "alt_max_m", "f64", false, "高度上界（仅限飞区）");
    nodes
}

/// The fields of `restricted_zones`.
pub open spec fn request_restricted_zones_views() -> Seq<NodeView> {
    seq![
        leaf_view("id"@, "string"@, true, "区域 ID"@),
        group_view("shape"@, "tagged-union"@, true, "circle / polygon"@, request_no_fly_zones_shape_views()),
        leaf_view("alt_min_m"@, "f64"@, true, "高度下界"@),
        leaf_view("alt_max_m"@, "f64"@, true, "高度上界"@),
    ]
}

fn request_restricted_zones() -> (nodes: Vec<ParamNode>)
    ensures
        shows_all(nodes@, request_restricted_zones_views()),
{
    let mut nodes: Vec<ParamNode> = no_fields();
    push_leaf(&mut nodes, "id", "string", true, "区域 ID");
    push_group(&mut nodes, "shape", "tagged-union", true, "circle / polygon", request_no_fly_zones_shape());
    push_leaf(&mut nodes, "alt_min_m", "f64", true, "高度下界");
    push_leaf(&mut nodes, "alt_max_m", "f64", true, "高度上界");
    nodes
}

/// The fields of `obstacles`.
pub open spec fn request_obstacles_views() -> Seq<NodeView> {
    seq![
        leaf_view("id"@, "string"@, true, "障碍物 ID"@),
        group_view("shape"@, "tagged-union"@, true, "circle / polygon"@, request_no_fly_zones_shape_views()),
        leaf_view("alt_min_m"@, "f64"@, false, "高度下界（仅限飞区）"@),
        leaf_view("alt_max_m"@, "f64"@, false, "高度上界（仅限飞区）"@),
    ]
}

fn request_obstacles() -> (nodes: Vec<ParamNode>)
    ensures
        shows_all(nodes@, request_obstacles_views()),
{
    let mut nodes: Vec<ParamNode> = no_fields();
    push_leaf(&mut nodes, "id", "string", true, "障碍物 ID");
    push_group(&mut nodes, "shape", "tagged-union", true, "circle / polygon", request_no_fly_zones_shape());
    push_leaf(&mut nodes, "alt_min_m", "f64", false, "高度下界（仅限飞区）");
    push_leaf(&mut nodes, "alt_max_m", "f64", false, "高度上界（仅限飞区）");
    nodes
}

/// The fields of `terrain`.
pub open spec fn request_terrain_views() -> Seq<NodeView> {
    seq![
        leaf_view("source"@, "string"@, false, "none / path（默认: none）"@),
        leaf_view("path"@, "string"@, false, "地形文件路径"@),
        leaf_view("mask_path"@, "string"@, false, "海岸掩膜路径"@),
    ]
}

fn request_terrain() -> (nodes: Vec<ParamNode>)
    ensures
        shows_all(nodes@, request_terrain_views()),
{
    let mut nodes: Vec<ParamNode> = no_fields();
    push_leaf(&mut nodes, "source", "string", false, "none / path（默认: none）");
    push_leaf(&mut nodes, "path", "string", false, "地形文件路径");
    push_leaf(&mut nodes, "mask_path", "string", false, "海岸掩膜路径");
    nodes
}

/// The fields of `parameters`.
pub open spec fn request_parameters_views() -> Seq<NodeView> {
    seq![
        leaf_view("grid_resolution"@, "int"@, false, "粗网格分辨率（8..1024，默认 256）"@),
        leaf_view("radar_inflation"@, "f64"@, false, "雷达膨胀系数（>1）"@),
        leaf_view("detection_curve"@, "string"@, false, "swerling1 / exponential / linear"@),
        leaf_view("p_cross"@, "f64"@, false, "穿越阈值（0..1）"@),
        leaf_view("suppression_delta"@, "f64"@, false, "压制因子 δ（0..1）"@),
        leaf_view("radar_cost_coef"@, "f64"@, false, "雷达代价系数（>0）"@),
        leaf_view("los_mask_coef"@, "f64"@, false, "LOS mask 系数（0..1）"@),
    ]
}

fn request_parameters() -> (nodes: Vec<ParamNode>)
    ensures
        shows_all(nodes@, request_parameters_views()),
{
    let mut nodes: Vec<ParamNode> = no_fields();
    push_leaf(&mut nodes, "grid_resolution", "int", false, "粗网格分辨率（8..1024，默认 256）");
    push_leaf(&mut nodes, "radar_inflation", "f64", false, "雷达膨胀系数（>1）");
    push_leaf(&mut nodes, "detection_curve", "string", false, "swerling1 / exponential / linear");
    push_leaf(&mut nodes, "p_cross", "f64", false, "穿越阈值（0..1）");
    push_leaf(&mut nodes, "suppression_delta", "f64", false, "压制因子 δ（0..1）");
    push_leaf(&mut nodes, "radar_cost_coef", "f64", false, "雷达代价系数（>0）");
    push_leaf(&mut nodes, "los_mask_coef", "f64", false, "LOS mask 系数（0..1）");
    nodes
}

/// The fields of a request.
pub open spec fn request_views() -> Seq<NodeView> {
    seq![
        group_view("aircraft"@, "array<object>"@, true, "飞行器数组（必填非空）"@, request_aircraft_views()),
        group_view("red_forces"@, "object"@, false, "红方部署"@, request_red_forces_views()),
        group_view("no_fly_zones"@, "array<object>"@, false, "禁飞区"@, request_no_fly_zones_views()),
        group_view("restricted_zones"@, "array<object>"@, false, "限飞区"@, request_restricted_zones_views()),
        group_view("obstacles"@, "array<object>"@, false, "障碍物"@, request_obstacles_views()),
        group_view("terrain"@, "object"@, false, "地形配置"@, request_terrain_views()),
        group_view("parameters"@, "object"@, false, "参数覆盖"@, request_parameters_views()),
    ]
}

fn request() -> (nodes: Vec<ParamNode>)
    ensures
        shows_all(nodes@, request_views()),
{
    let mut nodes: Vec<ParamNode> = no_fields();
    push_group(&mut nodes, "aircraft", "array<object>", true, "飞行器数组（必填非空）", request_aircraft());
    push_group(&mut nodes, "red_forces", "object", false, "红方部署", request_red_forces());
    push_group(&mut nodes, "no_fly_zones", "array<object>", false, "禁飞区", request_no_fly_zones());
    push_group(&mut nodes, "restricted_zones", "array<object>", false, "限飞区", request_restricted_zones());
    push_group(&mut nodes, "obstacles", "array<object>", false, "障碍物", request_obstacles());
    push_group(&mut nodes, "terrain", "object", false, "地形配置", request_terrain());
    push_group(&mut nodes, "parameters", "object", false, "参数覆盖", request_parameters());
    nodes
}

/// The fields of `error`.
pub open spec fn answer_error_views() -> Seq<NodeView> {
    seq![
        leaf_view("code"@, "string"@, true, "错误码"@),
        leaf_view("message"@, "string"@, true, "错误信息"@),
    ]
}

fn answer_error() -> (nodes: Vec<ParamNode>)
    ensures
        shows_all(nodes@, answer_error_views()),
{
    let mut nodes: Vec<ParamNode> = no_fields();
    push_leaf(&mut nodes, "code", "string", true, "错误码");
    push_leaf(&mut nodes, "message", "string", true, "错误信息");
    nodes
}

/// The fields of `path`.
pub open spec fn answer_aircraft_path_views() -> Seq<NodeView> {
    seq![
        leaf_view("x"@, "f64"@, true, "经度"@),
        leaf_view("y"@, "f64"@, true, "纬度"@),
        leaf_view("alt_m"@, "f64"@, true, "高度"@),
    ]
}

fn answer_aircraft_path() -> (nodes: Vec<ParamNode>)
    ensures
        shows_all(nodes@, answer_aircraft_path_views()),
{
    let mut nodes: Vec<ParamNode> = no_fields();
    push_leaf(&mut nodes, "x", "f64", true, "经度");
    push_leaf(&mut nodes, "y", "f64", true, "纬度");
    push_leaf(&mut nodes, "alt_m", "f64", true, "高度");
    nodes
}

/// The fields of `aircraft`.
pub open spec fn answer_aircraft_views() -> Seq<NodeView> {
    seq![
        leaf_view("id"@, "string"@, true, "飞行器 ID"@),
        leaf_view("status"@, "string"@, true, "planned / no_solution / degraded"@),
        group_view("path"@, "array<object>"@, true, "路径点"@, answer_aircraft_path_views()),
        leaf_view("distance_m"@, "f64"@, true, "距离（m）"@),
        leaf_view("warnings"@, "array<string>"@, true, "警告信息"@),
    ]
}

fn answer_aircraft() -> (nodes: Vec<ParamNode>)
    ensures
        shows_all(nodes@, answer_aircraft_views()),
{
    let mut nodes: Vec<ParamNode> = no_fields();
    push_leaf(&mut nodes, "id", "string", true, "飞行器 ID");
    push_leaf(&mut nodes, "status", "string", true, "planned / no_solution / degraded");
    push_group(&mut nodes, "path", "array<object>", true, "路径点", answer_aircraft_path());
    push_leaf(&mut nodes, "distance_m", "f64", true, "距离（m）");
    push_leaf(&mut nodes, "warnings", "array<string>", true, "警告信息");
    nodes
}

/// The fields of `stats`.
pub open spec fn answer_stats_views() -> Seq<NodeView> {
    seq![
        leaf_view("fmm_ms"@, "f64"@, true, "FMM 耗时（ms）"@),
        leaf_view("los_checks"@, "u64"@, true, "LOS 检查次数"@),
        leaf_view("degradations"@, "array<string>"@, true, "降级原因列表"@),
    ]
}

fn answer_stats() -> (nodes: Vec<ParamNode>)
    ensures
        shows_all(nodes@, answer_stats_views()),
{
    let mut nodes: Vec<ParamNode> = no_fields();
    push_leaf(&mut nodes, "fmm_ms", "f64", true, "FMM 耗时（ms）");
    push_leaf(&mut nodes, "los_checks", "u64", true, "LOS 检查次数");
    push_leaf(&mut nodes, "degradations", "array<string>", true, "降级原因列表");
    nodes
}

/// The fields of an answer.
pub open spec fn answer_views() -> Seq<NodeView> {
    seq![
        leaf_view("status"@, "string"@, true, "success / degraded_timeout / no_solution / input_invalid"@),
        group_view("error"@, "object"@, false, "错误体（status != success 时）"@, answer_error_views()),
        leaf_view("elapsed_ms"@, "u64"@, false, "耗时（ms）"@),
        group_view("aircraft"@, "array<object>"@, true, "飞行器结果"@, answer_aircraft_views()),
        group_view("stats"@, "object"@, true, "统计信息"@, answer_stats_views()),
    ]
}

fn answer() -> (nodes: Vec<ParamNode>)
    ensures
        shows_all(nodes@, answer_views()),
{
    let mut nodes: Vec<ParamNode> = no_fields();
    push_leaf(&mut nodes, "status", "string", true, "success / degraded_timeout / no_solution / input_invalid");
    push_group(&mut nodes, "error", "object", false, "错误体（status != success 时）", answer_error());
    push_leaf(&mut nodes, "elapsed_ms", "u64", false, "耗时（ms）");
    push_group(&mut nodes, "aircraft", "array<object>", true, "飞行器结果", answer_aircraft());
    push_group(&mut nodes, "stats", "object", true, "统计信息", answer_stats());
    nodes
}

/// The part of the help page on requests.
pub fn build_request_body() -> (r: String)
    ensures
        r@ == lines_of(request_views(), "  "@),
{
    let nodes: Vec<ParamNode> = request();
    render_tree(&nodes, "  ")
}

/// The part of the help page on answers.
pub fn build_return_body() -> (r: String)
    ensures
        r@ == lines_of(answer_views(), "  "@),
{
    let nodes: Vec<ParamNode> = answer();
    render_tree(&nodes, "  ")
}

/// The help page, given its parts on requests and answers.
pub open spec fn page(bin: Seq<char>, version: Seq<char>, request: Seq<char>, answer: Seq<char>) -> Seq<
    char,
> {
    bin + " v"@ + version + " - Aircraft Route Planner\n\nUsage: "@ + bin + " <command>\n\nCommands:\nhelp  显示完整使用说明\nplan  路径规划\n\nDescription:\n从文件读取任务 JSON，执行路径规划，输出结果 JSON。\n状态四态：success / degraded_timeout / no_solution / input_invalid。\n\nUsage: "@
        + bin + " plan --file <file> --out <path>\n\nOptions:\n* --file <file>   任务 JSON 文件\n* --out <path>    结果 JSON 文件\n\nRules:\n- * is Required\n\nRequest Body:\n"@
        + request + "\n\nReturn:\n"@ + answer + "\n\nExamples:\n"@ + bin
        + " plan --file task.json --out result.json\n"@
}

/// The help page of the program under the given name and version.
pub fn help_text(bin: &str, version: &str) -> (r: String)
    ensures
        r@ == page(
            bin@,
            version@,
            lines_of(request_views(), "  "@),
            lines_of(answer_views(), "  "@),
        ),
{
    let request_body: String = build_request_body();
    let return_body: String = build_return_body();
    let mut out: String = bin.to_owned();
    out.append(" v");
    out.append(version);
    out.append(" - Aircraft Route Planner\n\nUsage: ");
    out.append(bin);
    out.append(" <command>\n\nCommands:\nhelp  显示完整使用说明\nplan  路径规划\n\nDescription:\n从文件读取任务 JSON，执行路径规划，输出结果 JSON。\n状态四态：success / degraded_timeout / no_solution / input_invalid。\n\nUsage: ");
    out.append(bin);
    out.append(" plan --file <file> --out <path>\n\nOptions:\n* --file <file>   任务 JSON 文件\n* --out <path>    结果 JSON 文件\n\nRules:\n- * is Required\n\nRequest Body:\n");
    out.append(request_body.as_str());
    out.append("\n\nReturn:\n");
    out.append(return_body.as_str());
    out.append("\n\nExamples:\n");
    out.append(bin);
    out.append(" plan --file task.json --out result.json\n");
    assert(out@ == page(bin@, version@, request_body@, return_body@));
    out
}

} // verus!
