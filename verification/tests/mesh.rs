use staff::convert::mesh::{same_vert, MAX_VERTS};
use staff::convert::{Mesh, Vert};

fn vert(x: f32, y: f32, z: f32, u: f32, v: f32) -> Vert {
    Vert {
        pos: [x.to_bits(), y.to_bits(), z.to_bits()],
        map: [u.to_bits(), v.to_bits()],
    }
}

fn numbered(i: u32) -> Vert {
    Vert {
        pos: [i, 0, 0],
        map: [0, 0],
    }
}

#[test]
fn mesh_of_a_quad_shares_the_corners_of_its_edge() {
    let a = vert(0., 0., 0., 0., 0.);
    let b = vert(1., 0., 0., 1., 0.);
    let c = vert(1., 1., 0., 1., 1.);
    let d = vert(0., 1., 0., 0., 1.);
    let mesh = Mesh::from_verts(&[[a, b, c], [a, c, d]]).ok().unwrap();
    assert_eq!(mesh.verts.len(), 4);
    assert_eq!(mesh.faces, vec![[0, 1, 2], [0, 2, 3]]);
    assert!(same_vert(&mesh.verts[3], &d));
}

#[test]
fn mesh_round_trip() {
    let pool: Vec<Vert> = (0..7).map(|i| vert(i as f32, -(i as f32), 0.5, 0.25 * i as f32, 1.)).collect();
    let picks = [[0usize, 1, 2], [2, 1, 3], [6, 6, 0], [4, 5, 4], [3, 2, 1]];
    let tris: Vec<[Vert; 3]> = picks.iter().map(|t| [pool[t[0]], pool[t[1]], pool[t[2]]]).collect();
    let mesh = Mesh::from_verts(&tris).ok().unwrap();
    assert_eq!(mesh.verts.len(), 7);
    assert_eq!(mesh.faces.len(), 5);
    for (t, face) in mesh.faces.iter().enumerate() {
        for c in 0..3 {
            let v = mesh.verts[face[c] as usize];
            assert_eq!(v.pos, tris[t][c].pos);
            assert_eq!(v.map, tris[t][c].map);
        }
    }
    // first occurrence decides the order
    assert_eq!(mesh.faces[0], [0, 1, 2]);
    assert_eq!(mesh.faces[1], [2, 1, 3]);
    assert_eq!(mesh.faces[2], [4, 4, 0]);
}

#[test]
fn mesh_tells_vertices_apart_by_bits() {
    let plus = vert(0., 0., 0., 0., 0.);
    let minus = vert(-0., 0., 0., 0., 0.);
    assert!(!same_vert(&plus, &minus));
    let mesh = Mesh::from_verts(&[[plus, minus, plus]]).ok().unwrap();
    assert_eq!(mesh.verts.len(), 2);
    assert_eq!(mesh.faces, vec![[0, 1, 0]]);
    let nan = vert(f32::NAN, 0., 0., 0., 0.);
    let mesh = Mesh::from_verts(&[[nan, nan, nan]]).ok().unwrap();
    assert_eq!(mesh.verts.len(), 1);
}

#[test]
fn mesh_of_nothing_is_empty() {
    let mesh = Mesh::from_verts(&[]).ok().unwrap();
    assert!(mesh.verts.is_empty());
    assert!(mesh.faces.is_empty());
}

#[test]
fn mesh_has_room_for_the_limit_and_no_more() {
    assert_eq!(MAX_VERTS, 65535);
    let full: Vec<[Vert; 3]> = (0..21845u32)
        .map(|t| [numbered(3 * t), numbered(3 * t + 1), numbered(3 * t + 2)])
        .collect();
    let mesh = Mesh::from_verts(&full).ok().unwrap();
    assert_eq!(mesh.verts.len(), 65535);
    assert_eq!(mesh.faces[21844], [65532, 65533, 65534]);
    let mut more = full.clone();
    more.push([numbered(0), numbered(1), numbered(65535)]);
    assert!(Mesh::from_verts(&more).is_err());
    let mut same = full;
    same.push([numbered(0), numbered(1), numbered(65534)]);
    assert_eq!(Mesh::from_verts(&same).ok().unwrap().verts.len(), 65535);
}
