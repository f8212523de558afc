use staff::convert::action::Interpolation;
use staff::convert::format::scanner::Error as ReadError;
use staff::convert::format::{read, Document, Event, Node, Scanner, Tag};
use staff::convert::parser::meshes::from_triangles;
use staff::convert::parser::skeletons::is_degenerate;
use staff::convert::parser::{assemble, Error};
use staff::convert::{parse, Numerics, Pose, Target, Value};

/// Numbers as the command line tool treats them: positions, rotations and
/// animation points rounded to four decimals, texture coordinates flipped
/// and rounded to eight.
struct Rounded;

fn round(v: f32, digits: i32) -> f32 {
    let a = 10f32.powi(digits);
    let v = (v * a).round() / a;
    if v == 0. {
        0.
    } else {
        v
    }
}

fn bits<const N: usize>(v: [f32; N]) -> [u32; N] {
    v.map(f32::to_bits)
}

fn floats<const N: usize>(v: [u32; N]) -> [f32; N] {
    v.map(f32::from_bits)
}

impl Numerics for Rounded {
    fn parse(&self, token: &str) -> Option<u32> {
        token.parse::<f32>().ok().map(f32::to_bits)
    }

    fn radians(&self, degrees: u32) -> u32 {
        (f32::from_bits(degrees) * (std::f32::consts::PI / 180.)).to_bits()
    }

    fn difference(&self, a: u32, b: u32) -> u32 {
        (f32::from_bits(a) - f32::from_bits(b)).to_bits()
    }

    fn decompose(&self, matrix: [u32; 16]) -> Option<Pose> {
        let mat = glam::Mat4::from_cols_array(&floats(matrix));
        if mat.determinant() == 0. {
            return None;
        }
        let (_, rot, pos) = mat.to_scale_rotation_translation();
        Some(Pose {
            position: bits(pos.into()),
            rotation: bits(rot.into()),
        })
    }

    fn position(&self, p: [u32; 3]) -> [u32; 3] {
        bits(floats(p).map(|v| round(v, 4)))
    }

    fn texture(&self, uv: [u32; 2]) -> [u32; 2] {
        let [u, v] = floats(uv);
        bits([u, 1. - v].map(|v| round(v, 8)))
    }

    fn rotation(&self, q: [u32; 4]) -> [u32; 4] {
        bits(floats(q).map(|v| round(v, 4)))
    }

    fn action(&self, point: [u32; 2]) -> [u32; 2] {
        bits(floats(point).map(|v| round(v, 4)))
    }

    fn bezier(&self, offsets: [u32; 4]) -> [u32; 4] {
        bits(floats(offsets).map(|v| round(v, 4)))
    }
}

/// Numbers left as they are.
struct Plain;
impl Numerics for Plain {
    fn parse(&self, _: &str) -> Option<u32> {
        None
    }
    fn radians(&self, d: u32) -> u32 {
        d
    }
    fn difference(&self, a: u32, _: u32) -> u32 {
        a
    }
    fn decompose(&self, _: [u32; 16]) -> Option<Pose> {
        None
    }
    fn position(&self, p: [u32; 3]) -> [u32; 3] {
        p
    }
    fn texture(&self, uv: [u32; 2]) -> [u32; 2] {
        uv
    }
    fn rotation(&self, q: [u32; 4]) -> [u32; 4] {
        q
    }
    fn action(&self, p: [u32; 2]) -> [u32; 2] {
        p
    }
    fn bezier(&self, o: [u32; 4]) -> [u32; 4] {
        o
    }
}

const QUAD: &str = r##"<?xml version="1.0" encoding="utf-8"?>
<COLLADA>
  <library_geometries>
    <geometry id="Quad-mesh" name="Quad">
      <mesh>
        <source id="Quad-mesh-positions">
          <float_array id="Quad-mesh-positions-array" count="12">0 0 0 1 0 0 1 1 0 0 1 0</float_array>
        </source>
        <source id="Quad-mesh-map-0">
          <float_array id="Quad-mesh-map-0-array" count="8">0 0 1 0 1 1 0 1</float_array>
        </source>
        <vertices id="Quad-mesh-vertices">
          <input semantic="POSITION" source="#Quad-mesh-positions"/>
        </vertices>
        <triangles count="2">
          <input semantic="VERTEX" source="#Quad-mesh-vertices" offset="0"/>
          <input semantic="TEXCOORD" source="#Quad-mesh-map-0" offset="1" set="0"/>
          <p>0 0 1 1 2 2 0 0 2 2 3 3</p>
        </triangles>
      </mesh>
    </geometry>
  </library_geometries>
</COLLADA>
"##;

const HIPS: &str = r##"<COLLADA>
  <library_animations>
    <animation id="Hips___rotation_euler_Y" name="Hips">
      <source id="Hips___rotation_euler_Y-input">
        <float_array id="Hips___rotation_euler_Y-input-array" count="2">0 1</float_array>
      </source>
      <source id="Hips___rotation_euler_Y-output">
        <float_array id="Hips___rotation_euler_Y-output-array" count="2">0 90</float_array>
      </source>
      <source id="Hips___rotation_euler_Y-interpolation">
        <Name_array id="Hips___rotation_euler_Y-interpolation-array" count="2">LINEAR LINEAR</Name_array>
      </source>
    </animation>
  </library_animations>
</COLLADA>
"##;

const IDENTITY: &str = "1 0 0 0 0 1 0 0 0 0 1 0 0 0 0 1";

fn armature(hips_matrix: &str, spine_type: &str) -> String {
    format!(
        r##"<COLLADA>
  <library_visual_scenes>
    <visual_scene id="Scene" name="Scene">
      <node id="Armature" name="Armature" type="NODE">
        <matrix sid="transform">{IDENTITY}</matrix>
        <node id="Armature_Hips" name="Hips" type="JOINT">
          <matrix sid="transform">{hips_matrix}</matrix>
          <node id="Armature_Spine" name="Spine" type="{spine_type}">
            <matrix sid="transform">1 0 0 0 0 1 0 0 0 0 1 0 0 2 0 1</matrix>
            <node id="Armature_Head" name="Head" type="JOINT">
              <matrix sid="transform">{IDENTITY}</matrix>
            </node>
          </node>
          <node id="Armature_Leg" name="Leg" type="JOINT">
            <matrix sid="transform">{IDENTITY}</matrix>
          </node>
        </node>
      </node>
      <node id="Lamp" name="Lamp" type="NODE">
        <matrix sid="transform">{IDENTITY}</matrix>
      </node>
    </visual_scene>
  </library_visual_scenes>
</COLLADA>
"##
    )
}

#[test]
fn quad_gives_four_vertices_and_two_faces() {
    let elements = parse(QUAD, Target::Mesh, &Rounded).ok().unwrap();
    assert_eq!(elements.len(), 1);
    assert_eq!(elements[0].name, "Quad");
    let Value::Mesh(mesh) = &elements[0].val else {
        panic!("no mesh");
    };
    assert_eq!(mesh.verts.len(), 4);
    assert_eq!(mesh.faces.len(), 2);
    assert_eq!(mesh.faces, vec![[0, 1, 2], [0, 2, 3]]);
    assert_eq!(floats(mesh.verts[2].pos), [1., 1., 0.]);
    // the texture coordinate is flipped
    assert_eq!(floats(mesh.verts[0].map), [0., 1.]);
    assert_eq!(floats(mesh.verts[2].map), [1., 0.]);
}

#[test]
fn quad_has_no_skeleton() {
    let elements = parse(QUAD, Target::Skeleton, &Rounded).ok().unwrap();
    assert!(elements.is_empty());
    let elements = parse(QUAD, Target::Action, &Rounded).ok().unwrap();
    assert_eq!(elements.len(), 1);
    assert_eq!(elements[0].name, "action");
    let Value::Action(action) = &elements[0].val else {
        panic!("no action");
    };
    assert!(action.is_empty());
}

#[test]
fn hips_animation_gives_one_track() {
    let elements = parse(HIPS, Target::Action, &Rounded).ok().unwrap();
    assert_eq!(elements.len(), 1);
    assert_eq!(elements[0].name, "action");
    let Value::Action(action) = &elements[0].val else {
        panic!("no action");
    };
    let tracks = action.keyframes();
    assert_eq!(tracks.len(), 1);
    assert_eq!(tracks[0].bone, "Hips");
    let keys = &tracks[0].keys;
    assert_eq!(keys.len(), 2);
    assert_eq!(f32::from_bits(keys[0].input), 0.);
    assert_eq!(f32::from_bits(keys[1].input), 1.);
    assert_eq!(f32::from_bits(keys[0].val.ry.output), 0.);
    assert_eq!(f32::from_bits(keys[1].val.ry.output), 1.5708);
    for key in keys {
        assert!(matches!(key.val.ry.int, Interpolation::Linear));
        assert_eq!(key.val.rx.output, 0);
        assert_eq!(key.val.rz.output, 0);
    }
}

#[test]
fn missing_closing_tag_fails_with_a_line() {
    let src = "<COLLADA>\n<library_geometries>\n<geometry id=\"a\" name=\"b\">\n<mesh>\n</mesh>\n</library_geometries>\n</COLLADA>\n";
    let failed = read(src, &Rounded).err().unwrap();
    assert!(failed.line >= 3);
    assert!(matches!(
        failed.err,
        ReadError::XmlError(_) | ReadError::UnexpectedClosingTag(_)
    ));
    let Err(Error::Document(failed)) = parse(src, Target::Mesh, &Rounded) else {
        panic!("no failure");
    };
    assert!(failed.line >= 3);
}

#[test]
fn armature_gives_bones_with_parents_first() {
    let src = armature(IDENTITY, "JOINT");
    let elements = parse(&src, Target::Skeleton, &Rounded).ok().unwrap();
    assert_eq!(elements.len(), 1);
    assert_eq!(elements[0].name, "Armature");
    let Value::Skeleton(sk) = &elements[0].val else {
        panic!("no skeleton");
    };
    let bones = sk.bones();
    let names: Vec<&str> = bones.iter().map(|b| b.name.as_str()).collect();
    assert_eq!(names, ["Hips", "Spine", "Head", "Leg"]);
    let parents: Vec<Option<u16>> = bones.iter().map(|b| b.parent).collect();
    assert_eq!(parents, [None, Some(0), Some(1), Some(0)]);
    assert_eq!(floats(bones[1].pos), [0., 2., 0.]);
    assert_eq!(floats(bones[1].rot), [0., 0., 0., 1.]);
}

#[test]
fn degenerate_joint_is_left_out_and_its_children_stay() {
    let src = armature("0 0 0 0 0 0 0 0 0 0 0 0 0 0 0 0", "JOINT");
    let elements = parse(&src, Target::Skeleton, &Rounded).ok().unwrap();
    let Value::Skeleton(sk) = &elements[0].val else {
        panic!("no skeleton");
    };
    let names: Vec<&str> = sk.bones().iter().map(|b| b.name.as_str()).collect();
    assert_eq!(names, ["Spine", "Head", "Leg"]);
    let parents: Vec<Option<u16>> = sk.bones().iter().map(|b| b.parent).collect();
    assert_eq!(parents, [None, Some(0), None]);
}

#[test]
fn unknown_node_type_is_refused() {
    let src = armature(IDENTITY, "LIGHT");
    let Err(Error::UndefinedNode(ty)) = parse(&src, Target::Skeleton, &Rounded) else {
        panic!("no failure");
    };
    assert_eq!(ty, "LIGHT");
}

#[test]
fn short_matrix_is_refused() {
    let src = armature("1 0 0 0", "JOINT");
    assert!(matches!(
        parse(&src, Target::Skeleton, &Rounded),
        Err(Error::MatSize)
    ));
}

fn tag(name: &str, attributes: &str) -> Event {
    Event::Start(Tag {
        name: name.to_owned(),
        attributes: attributes.to_owned(),
    })
}

fn run(events: Vec<Event>) -> Result<Scanner, ReadError> {
    let mut scanner = Scanner::new();
    for event in &events {
        scanner = scanner.step(event, &Rounded)?;
    }
    Ok(scanner)
}

#[test]
fn scanner_ignores_what_is_outside_a_library() {
    let scanner = run(vec![
        tag("geometry", ""),
        Event::Text("1 2 x".to_owned()),
        Event::End("geometry".to_owned()),
        Event::Eof,
    ])
    .ok()
    .unwrap();
    let doc = scanner.finish().ok().unwrap();
    assert!(doc.geometry.is_empty() && doc.nodes.is_empty() && doc.animations.is_empty());
}

#[test]
fn scanner_reports_a_missing_attribute() {
    let r = run(vec![tag("library_geometries", ""), tag("geometry", " id=\"a\"")]);
    let Err(ReadError::AttributeNotFound(name)) = r else {
        panic!("no failure");
    };
    assert_eq!(name, "name");
}

#[test]
fn scanner_reports_a_bad_count() {
    let r = run(vec![tag("library_geometries", ""), tag("float_array", " count=\"many\"")]);
    let Err(ReadError::Parse(text)) = r else {
        panic!("no failure");
    };
    assert_eq!(text, "many");
}

#[test]
fn scanner_reports_a_bad_number() {
    let r = run(vec![
        tag("library_geometries", ""),
        tag("float_array", " count=\"2\""),
        Event::Text("1.5 abc 2".to_owned()),
    ]);
    let Err(ReadError::Parse(text)) = r else {
        panic!("no failure");
    };
    assert_eq!(text, "abc");
    let r = run(vec![
        tag("library_geometries", ""),
        tag("triangles", " count=\"1\""),
        Event::Text("1 -2".to_owned()),
    ]);
    let Err(ReadError::Parse(text)) = r else {
        panic!("no failure");
    };
    assert_eq!(text, "-2");
}

#[test]
fn scanner_reports_an_unknown_interpolation() {
    let r = run(vec![
        tag("library_animations", ""),
        tag("Name_array", " count=\"2\""),
        Event::Text("LINEAR STEP".to_owned()),
    ]);
    let Err(ReadError::Name(text)) = r else {
        panic!("no failure");
    };
    assert_eq!(text, "STEP");
}

#[test]
fn scanner_reports_a_closing_tag_out_of_place() {
    let r = run(vec![
        tag("library_geometries", ""),
        tag("geometry", " id=\"a\" name=\"b\""),
        tag("source", " id=\"s\""),
        Event::End("geometry".to_owned()),
    ]);
    let Err(ReadError::UnexpectedClosingTag(name)) = r else {
        panic!("no failure");
    };
    assert_eq!(name, "geometry");
    let r = run(vec![tag("library_visual_scenes", ""), Event::End("node".to_owned())]);
    assert!(matches!(r, Err(ReadError::UnexpectedClosingTag(_))));
}

#[test]
fn scanner_reports_a_matrix_outside_a_node() {
    let r = run(vec![
        tag("library_visual_scenes", ""),
        tag("matrix", ""),
        Event::Text("1 0 0 0".to_owned()),
    ]);
    assert!(matches!(r, Err(ReadError::MatrixNotFound)));
}

#[test]
fn scanner_names_a_source_when_it_closes() {
    let scanner = run(vec![
        tag("library_animations", ""),
        tag("animation", " id=\"A___rotation_euler_X\" name=\"A\""),
        tag("source", " id=\"A-input\""),
        tag("float_array", " count=\"2\""),
        Event::Text(" 0.5\n 1.5 ".to_owned()),
        Event::End("float_array".to_owned()),
        Event::End("source".to_owned()),
        Event::End("animation".to_owned()),
        Event::End("library_animations".to_owned()),
    ])
    .ok()
    .unwrap();
    let doc = scanner.finish().ok().unwrap();
    assert_eq!(doc.animations.len(), 1);
    let a = &doc.animations[0];
    assert_eq!(a.id, "A___rotation_euler_X");
    assert_eq!(a.name, "A");
    assert_eq!(a.sources.len(), 1);
    assert_eq!(a.sources[0].id, "A-input");
    assert_eq!(a.sources[0].floats, vec![0.5f32.to_bits(), 1.5f32.to_bits()]);
    assert!(a.sources[0].names.is_empty());
}

#[test]
fn reader_builds_the_node_forest() {
    let doc = read(&armature(IDENTITY, "JOINT"), &Rounded).ok().unwrap();
    assert_eq!(doc.nodes.len(), 2);
    assert_eq!(doc.nodes[0].name, "Armature");
    assert_eq!(doc.nodes[0].ty, "NODE");
    assert_eq!(doc.nodes[0].mat.len(), 16);
    assert_eq!(doc.nodes[0].children.len(), 1);
    let hips = &doc.nodes[0].children[0];
    assert_eq!(hips.id, "Armature_Hips");
    assert_eq!(hips.children.len(), 2);
    assert_eq!(hips.children[0].children[0].name, "Head");
    assert_eq!(hips.children[0].mat[13], 2f32.to_bits());
    assert_eq!(doc.nodes[1].name, "Lamp");
}

#[test]
fn reader_reads_the_quad() {
    let doc = read(QUAD, &Rounded).ok().unwrap();
    assert_eq!(doc.geometry.len(), 1);
    let g = &doc.geometry[0];
    assert_eq!(g.id, "Quad-mesh");
    assert_eq!(g.sources.len(), 2);
    assert_eq!(g.sources[0].id, "Quad-mesh-positions");
    assert_eq!(g.sources[0].floats.len(), 12);
    assert_eq!(g.sources[1].id, "Quad-mesh-map-0");
    assert_eq!(g.triangles.indxs, vec![0, 0, 1, 1, 2, 2, 0, 0, 2, 2, 3, 3]);
    assert_eq!(g.triangles.inputs.len(), 2);
    assert_eq!(g.triangles.inputs[0].source, "#Quad-mesh-vertices");
    assert_eq!(g.triangles.inputs[0].offset, 0);
    assert_eq!(g.triangles.inputs[1].offset, 1);
}

#[test]
fn reader_reports_the_line_of_a_bad_number() {
    let src = "<COLLADA>\n<library_geometries>\n<geometry id=\"a\" name=\"b\">\n<source id=\"s\">\n<float_array count=\"1\">zero</float_array>\n</source>\n</geometry>\n</library_geometries>\n</COLLADA>\n";
    let failed = read(src, &Rounded).err().unwrap();
    assert!(matches!(failed.err, ReadError::Parse(_)));
    assert!(failed.line >= 5);
}

#[test]
fn derive_reports_missing_inputs() {
    let no_inputs = QUAD
        .replace("<input semantic=\"VERTEX\" source=\"#Quad-mesh-vertices\" offset=\"0\"/>", "")
        .replace("<input semantic=\"TEXCOORD\" source=\"#Quad-mesh-map-0\" offset=\"1\" set=\"0\"/>", "");
    let doc = read(&no_inputs, &Rounded).ok().unwrap();
    assert!(matches!(assemble(&doc, Target::Mesh, &Rounded), Err(Error::NoVertices)));
    let no_map = QUAD.replace(
        "<input semantic=\"TEXCOORD\" source=\"#Quad-mesh-map-0\" offset=\"1\" set=\"0\"/>",
        "",
    );
    let doc = read(&no_map, &Rounded).ok().unwrap();
    assert!(matches!(assemble(&doc, Target::Mesh, &Rounded), Err(Error::NoTextureMap)));
}

#[test]
fn derive_reports_an_index_out_of_range() {
    let far = QUAD.replace("<p>0 0 1 1", "<p>0 0 4 1");
    assert!(matches!(parse(&far, Target::Mesh, &Rounded), Err(Error::Index)));
    let odd = QUAD.replace("2 2 3 3</p>", "2 2 3</p>");
    assert!(matches!(parse(&odd, Target::Mesh, &Rounded), Err(Error::Index)));
}

#[test]
fn animation_with_a_bad_id_is_refused() {
    let bad = HIPS.replace("\"Hips___rotation_euler_Y\"", "\"Hips___scale_Y\"");
    assert!(matches!(parse(&bad, Target::Action, &Rounded), Err(Error::AnimationId)));
    let bare = HIPS.replace("\"Hips___rotation_euler_Y\"", "\"rotation_euler_Y\"");
    assert!(matches!(parse(&bare, Target::Action, &Rounded), Err(Error::AnimationId)));
}

#[test]
fn animation_with_uneven_arrays_is_refused() {
    let bad = HIPS.replace(">0 90<", ">0 90 180<");
    assert!(matches!(parse(&bad, Target::Action, &Rounded), Err(Error::ArrayLen)));
}

#[test]
fn bezier_key_needs_its_tangents() {
    let bad = HIPS.replace("LINEAR LINEAR", "LINEAR BEZIER");
    assert!(matches!(parse(&bad, Target::Action, &Rounded), Err(Error::Index)));
}

#[test]
fn bezier_key_gets_offsets_from_its_point() {
    let tangents = r##"<source id="Hips___rotation_euler_Y-intangent">
        <float_array count="4">-0.5 0 0.5 1</float_array>
      </source>
      <source id="Hips___rotation_euler_Y-outtangent">
        <float_array count="4">0.5 0 1.5 2</float_array>
      </source>
    </animation>"##;
    let src = HIPS
        .replace("LINEAR LINEAR", "LINEAR BEZIER")
        .replace("</animation>", tangents);
    let elements = parse(&src, Target::Action, &Rounded).ok().unwrap();
    let Value::Action(action) = &elements[0].val else {
        panic!("no action");
    };
    let keys = &action.keyframes()[0].keys;
    assert!(matches!(keys[0].val.ry.int, Interpolation::Linear));
    let Interpolation::Bezier(offsets) = keys[1].val.ry.int else {
        panic!("no curve");
    };
    // the key stands at (1, pi / 2)
    assert_eq!(floats(offsets), [-0.5, -0.5708, 0.5, 0.4292]);
}

#[test]
fn animations_of_one_bone_share_their_keys() {
    let x = HIPS
        .replace("rotation_euler_Y", "rotation_euler_X")
        .replace(">0 1<", ">1 2<")
        .replace("<COLLADA>\n  <library_animations>", "")
        .replace("</library_animations>\n</COLLADA>", "");
    let src = HIPS.replace("  </library_animations>", &format!("{x}  </library_animations>"));
    let elements = parse(&src, Target::Action, &Rounded).ok().unwrap();
    let Value::Action(action) = &elements[0].val else {
        panic!("no action");
    };
    let tracks = action.keyframes();
    assert_eq!(tracks.len(), 1);
    let keys = &tracks[0].keys;
    let times: Vec<f32> = keys.iter().map(|k| f32::from_bits(k.input)).collect();
    assert_eq!(times, [0., 1., 2.]);
    assert_eq!(f32::from_bits(keys[1].val.ry.output), 1.5708);
    assert_eq!(f32::from_bits(keys[1].val.rx.output), 0.);
    assert_eq!(f32::from_bits(keys[2].val.rx.output), 1.5708);
    assert_eq!(keys[2].val.ry.output, 0);
}

#[test]
fn target_is_read_from_its_name() {
    assert_eq!(Target::from_str("mesh"), Ok(Target::Mesh));
    assert_eq!(Target::from_str("skeleton"), Ok(Target::Skeleton));
    assert_eq!(Target::from_str("action"), Ok(Target::Action));
    assert!(Target::from_str("Mesh").is_err());
    assert!(Target::from_str("").is_err());
}

#[test]
fn reader_reports_text_that_is_no_xml() {
    let failed = read("<a>\n</b>\n", &Rounded).err().unwrap();
    assert!(matches!(failed.err, ReadError::XmlError(_)));
    assert!(failed.line >= 1);
}

#[test]
fn reader_splits_numbers_at_any_white_space() {
    let scanner = run(vec![
        tag("library_geometries", ""),
        tag("float_array", " count=\"4\""),
        Event::Text("1\u{3000}2\t3\r\n-4e-1".to_owned()),
        Event::End("float_array".to_owned()),
        tag("geometry", " name=\"n\" id=\"i\""),
        Event::End("geometry".to_owned()),
    ])
    .ok()
    .unwrap();
    let doc = scanner.finish().ok().unwrap();
    assert_eq!(doc.geometry[0].id, "i");
    assert_eq!(floats::<4>(doc.geometry[0].sources[0].floats.clone().try_into().unwrap()), [1., 2., 3., -0.4]);
    assert_eq!(doc.geometry[0].sources[0].id, "");
}

#[test]
fn reader_takes_the_first_attribute_of_a_name() {
    let scanner = run(vec![
        tag("library_visual_scenes", ""),
        tag("node", " id='single' name=\"a b\" type=\"JOINT\" id=\"again\""),
        Event::End("node".to_owned()),
    ])
    .ok()
    .unwrap();
    let doc = scanner.finish().ok().unwrap();
    assert_eq!(doc.nodes[0].id, "single");
    assert_eq!(doc.nodes[0].name, "a b");
    assert!(doc.nodes[0].mat.is_empty());
}

#[test]
fn inputs_are_read_inside_triangles_only() {
    let input = Event::Empty(Tag {
        name: "input".to_owned(),
        attributes: " source=\"#s\" offset=\"3\"".to_owned(),
    });
    let outside = run(vec![tag("library_geometries", ""), tag("geometry", " id=\"a\" name=\"b\"")])
        .ok()
        .unwrap()
        .step(&input, &Rounded)
        .ok()
        .unwrap()
        .step(&Event::End("geometry".to_owned()), &Rounded)
        .ok()
        .unwrap()
        .finish()
        .ok()
        .unwrap();
    assert!(outside.geometry[0].triangles.inputs.is_empty());
    let inside = run(vec![
        tag("library_geometries", ""),
        tag("geometry", " id=\"a\" name=\"b\""),
        tag("triangles", " count=\"0\""),
    ])
    .ok()
    .unwrap()
    .step(&input, &Rounded)
    .ok()
    .unwrap();
    let doc = run_on(inside, vec![Event::End("triangles".to_owned()), Event::End("geometry".to_owned())]);
    assert_eq!(doc.geometry[0].triangles.inputs[0].offset, 3);
    let bad = Event::Empty(Tag {
        name: "input".to_owned(),
        attributes: " source=\"#s\" offset=\"-3\"".to_owned(),
    });
    let r = run(vec![tag("library_geometries", ""), tag("triangles", " count=\"0\"")])
        .ok()
        .unwrap()
        .step(&bad, &Rounded);
    assert!(matches!(r, Err(ReadError::Parse(_))));
}

fn run_on(scanner: Scanner, events: Vec<Event>) -> Document {
    let mut scanner = scanner;
    for event in &events {
        scanner = scanner.step(event, &Rounded).ok().unwrap();
    }
    scanner.finish().ok().unwrap()
}

#[test]
fn animation_id_is_split_at_the_last_separator() {
    let src = HIPS.replace("\"Hips___rotation_euler_Y\"", "\"Left___Arm____rotation_euler_Z\"");
    let elements = parse(&src, Target::Action, &Rounded).ok().unwrap();
    let Value::Action(action) = &elements[0].val else {
        panic!("no action");
    };
    let tracks = action.keyframes();
    assert_eq!(tracks[0].bone, "Left___Arm_");
    assert_eq!(f32::from_bits(tracks[0].keys[1].val.rz.output), 1.5708);
    assert_eq!(tracks[0].keys[1].val.ry.output, 0);
}

#[test]
fn animation_without_sources_is_passed_over() {
    let src = "<COLLADA><library_animations><animation id=\"nothing\" name=\"n\"></animation></library_animations></COLLADA>";
    let elements = parse(src, Target::Action, &Rounded).ok().unwrap();
    let Value::Action(action) = &elements[0].val else {
        panic!("no action");
    };
    assert!(action.is_empty());
}

fn raw(v: &[f32]) -> Vec<u32> {
    v.iter().map(|f| f.to_bits()).collect()
}

#[test]
fn triangles_are_looked_up_chunk_by_chunk() {
    let positions = raw(&[0., 0., 0., 1., 0., 0., 0., 1., 0.]);
    let maps = raw(&[0., 0., 1., 1.]);
    // three slots a chunk: position, something else, texture coordinate
    let indxs = [0, 9, 0, 1, 9, 1, 2, 9, 0, 1, 9, 1, 0, 9, 0, 2, 9, 0];
    let mesh = from_triangles(&positions, &maps, &indxs, 0, 2, 3, &Rounded).ok().unwrap();
    assert_eq!(mesh.verts.len(), 3);
    assert_eq!(mesh.faces, vec![[0, 1, 2], [1, 0, 2]]);
    assert_eq!(floats(mesh.verts[1].pos), [1., 0., 0.]);
    assert_eq!(floats(mesh.verts[1].map), [1., 0.]);
    // corners beyond the last whole triangle are dropped
    let mesh = from_triangles(&positions, &maps, &indxs[..12], 0, 2, 3, &Rounded).ok().unwrap();
    assert_eq!(mesh.faces.len(), 1);
    // a slot beyond the stride
    assert!(matches!(
        from_triangles(&positions, &maps, &indxs, 3, 2, 3, &Rounded),
        Err(Error::Index)
    ));
    // a last chunk that is too short
    assert!(matches!(
        from_triangles(&positions, &maps, &indxs[..17], 0, 2, 3, &Rounded),
        Err(Error::Index)
    ));
    let none = from_triangles(&positions, &maps, &[], 0, 2, 3, &Rounded).ok().unwrap();
    assert!(none.verts.is_empty() && none.faces.is_empty());
}

#[test]
fn a_mesh_with_too_many_corners_is_refused() {
    let count = 65538u32;
    let positions: Vec<u32> = (0..count).flat_map(|i| [i, 0, 0]).collect();
    let maps = raw(&[0., 0.]);
    let fine: Vec<u32> = (0..65535u32).flat_map(|i| [i, 0]).collect();
    let mesh = from_triangles(&positions, &maps, &fine, 0, 1, 2, &Plain).ok().unwrap();
    assert_eq!(mesh.verts.len(), 65535);
    let more: Vec<u32> = (0..count).flat_map(|i| [i, 0]).collect();
    assert!(matches!(
        from_triangles(&positions, &maps, &more, 0, 1, 2, &Plain),
        Err(Error::IndexOverflow(_))
    ));
}

#[test]
fn a_skeleton_with_too_many_joints_is_refused() {
    let joint = |i: u32| Node {
        id: format!("j{i}"),
        name: format!("j{i}"),
        ty: "JOINT".to_owned(),
        mat: raw(&[1., 0., 0., 0., 0., 1., 0., 0., 0., 0., 1., 0., 0., 0., 0., 1.]),
        children: vec![],
    };
    let mut root = joint(0);
    root.children = (1..65535).map(joint).collect();
    let mut doc = Document {
        geometry: vec![],
        nodes: vec![root],
        animations: vec![],
    };
    let elements = assemble(&doc, Target::Skeleton, &Rounded).ok().unwrap();
    let Value::Skeleton(sk) = &elements[0].val else {
        panic!("no skeleton");
    };
    assert_eq!(sk.len(), 65535);
    assert_eq!(sk.bones()[65534].parent, Some(0));
    doc.nodes[0].children.push(joint(65535));
    assert!(matches!(
        assemble(&doc, Target::Skeleton, &Rounded),
        Err(Error::ToManyBones(_))
    ));
}

#[test]
fn text_that_ends_inside_an_element_fails() {
    let src = ["<library_geometries>", "<geometry id='g' name='n'>", ""].join("\n");
    let failed = read(&src, &Rounded).err().unwrap();
    assert!(failed.line >= 2);
    let ReadError::UnexpectedEof(tag) = failed.err else {
        panic!("another failure");
    };
    assert_eq!(tag, "geometry");
    let Err(Error::Document(failed)) = parse(&src, Target::Mesh, &Rounded) else {
        panic!("no failure");
    };
    assert_eq!(failed.line, 3);
}

#[test]
fn text_that_ends_inside_a_nested_element_names_the_innermost() {
    let src = "<library_visual_scenes><node id='a' name='a' type='NODE'>\n<matrix>1 0";
    let failed = read(src, &Rounded).err().unwrap();
    let ReadError::UnexpectedEof(tag) = failed.err else {
        panic!("another failure");
    };
    assert_eq!(tag, "matrix");
    // the offset behind the last byte outlasts both lines
    assert_eq!(failed.line, 3);
}

#[test]
fn scanner_does_not_finish_inside_an_element() {
    let scanner = run(vec![tag("library_animations", ""), tag("source", " id=\"s\"")])
        .ok()
        .unwrap();
    let Err(ReadError::UnexpectedEof(open)) = scanner.finish() else {
        panic!("no failure");
    };
    assert_eq!(open, "source");
    // an open library alone holds no element
    let scanner = run(vec![tag("library_animations", "")]).ok().unwrap();
    assert!(scanner.finish().is_ok());
}

#[test]
fn degenerate_joints_can_be_told() {
    let doc = read(&armature("0 0 0 0 0 0 0 0 0 0 0 0 0 0 0 0", "JOINT"), &Rounded).ok().unwrap();
    let root = &doc.nodes[0];
    let hips = &root.children[0];
    assert!(!is_degenerate(root, &Rounded));
    assert!(is_degenerate(hips, &Rounded));
    assert!(!is_degenerate(&hips.children[0], &Rounded));
    let short = read(&armature("1 0 0 0", "JOINT"), &Rounded).ok().unwrap();
    assert!(!is_degenerate(&short.nodes[0].children[0], &Rounded));
}

#[test]
fn a_matrix_is_read_column_after_column() {
    let src = armature("0 1 0 0 -1 0 0 0 0 0 1 0 3 4 5 1", "NODE");
    let elements = parse(&src, Target::Skeleton, &Rounded).ok().unwrap();
    let Value::Skeleton(sk) = &elements[0].val else {
        panic!("no skeleton");
    };
    let hips = &sk.bones()[0];
    assert_eq!(hips.name, "Hips");
    assert_eq!(floats(hips.pos), [3., 4., 5.]);
    // a quarter turn about the third axis
    assert_eq!(floats(hips.rot), [0., 0., 0.7071, 0.7071]);
}

#[test]
fn words_are_kept_apart_by_unicode_white_space() {
    let spaces = [
        0x09u32, 0x0A, 0x0B, 0x0C, 0x0D, 0x20, 0x85, 0xA0, 0x1680, 0x2000, 0x2001, 0x2002, 0x2003,
        0x2004, 0x2005, 0x2006, 0x2007, 0x2008, 0x2009, 0x200A, 0x2028, 0x2029, 0x202F, 0x205F,
        0x3000,
    ];
    let others = (0..0x3100u32).chain([0xFEFF, 0x1D7CE, 0x10FFFF]);
    for c in others.filter_map(char::from_u32) {
        let r = run(vec![
            tag("library_geometries", ""),
            tag("float_array", " count=\"2\""),
            Event::Text(format!("1{c}2")),
            Event::End("float_array".to_owned()),
            tag("geometry", " id=\"i\" name=\"n\""),
            Event::End("geometry".to_owned()),
        ]);
        let two = match r {
            Ok(scanner) => scanner.finish().ok().unwrap().geometry[0].sources[0].floats.len() == 2,
            Err(_) => false,
        };
        assert_eq!(two, spaces.contains(&(c as u32)), "{:#x}", c as u32);
    }
}
