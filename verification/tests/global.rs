use tessera::geom::point::Point;
use tessera::global::pathfinder::{negotiate, GCell, GlobalGrid, NetRequest};
use tessera::global::steiner::{minimum_spanning_tree, SteinerEdge};
use tessera::model::connection::Endpoint;
use tessera::model::items::LayerId;

fn small_grid(width: i32, height: i32, capacity: i64) -> GlobalGrid {
    GlobalGrid {
        origin: Point::new(0, 0),
        cell_size_nm: 500_000,
        width,
        height,
        layer_capacity: vec![capacity],
        obstruction: Vec::new(),
    }
}

fn cell(x: i32, y: i32) -> GCell {
    GCell { x, y, layer: 0 }
}

#[test]
fn single_net_routes_directly_with_no_congestion() {
    let grid = small_grid(10, 10, 4);
    let request = NetRequest {
        starts: vec![cell(0, 0)],
        goals: vec![cell(5, 0)],
    };
    let result = negotiate(&grid, &[request], 10);
    assert!(result.converged);
    assert!(result.paths[0].is_some());
}

#[test]
fn a_straight_run_takes_the_shortest_path() {
    let grid = small_grid(10, 10, 4);
    let request = NetRequest {
        starts: vec![cell(0, 0)],
        goals: vec![cell(5, 0)],
    };
    let result = negotiate(&grid, &[request], 10);
    let path = result.paths[0].as_ref().unwrap();
    assert_eq!(path.len(), 6);
    assert_eq!(path[0], cell(0, 0));
    assert_eq!(path[5], cell(5, 0));
}

#[test]
fn two_nets_share_capacity_when_it_fits() {
    let grid = small_grid(10, 3, 2);
    let requests = vec![
        NetRequest {
            starts: vec![cell(0, 1)],
            goals: vec![cell(5, 1)],
        },
        NetRequest {
            starts: vec![cell(0, 1)],
            goals: vec![cell(5, 1)],
        },
    ];
    let result = negotiate(&grid, &requests, 20);
    assert!(result.converged, "{:?}", result.overused_edges);
}

#[test]
fn congestion_pushes_nets_onto_an_alternate_route_when_one_exists() {
    let grid = small_grid(10, 3, 1);
    let requests = vec![
        NetRequest {
            starts: vec![cell(0, 0), cell(0, 2)],
            goals: vec![cell(9, 0), cell(9, 2)],
        },
        NetRequest {
            starts: vec![cell(0, 0), cell(0, 2)],
            goals: vec![cell(9, 0), cell(9, 2)],
        },
    ];
    let result = negotiate(&grid, &requests, 30);
    assert!(result.converged, "{:?}", result.overused_edges);
    let path0 = result.paths[0].as_ref().unwrap();
    let path1 = result.paths[1].as_ref().unwrap();
    assert_ne!(
        path0.first().unwrap().y,
        path1.first().unwrap().y,
        "negotiation should have routed the two nets on different rows"
    );
}

#[test]
fn genuinely_infeasible_congestion_is_reported_not_hidden() {
    let grid = small_grid(5, 1, 2);
    let requests = vec![
        NetRequest {
            starts: vec![cell(0, 0)],
            goals: vec![cell(4, 0)],
        },
        NetRequest {
            starts: vec![cell(0, 0)],
            goals: vec![cell(4, 0)],
        },
        NetRequest {
            starts: vec![cell(0, 0)],
            goals: vec![cell(4, 0)],
        },
    ];
    let result = negotiate(&grid, &requests, 15);
    assert!(!result.converged);
    assert!(!result.overused_edges.is_empty());
    assert!(result.paths.iter().all(Option::is_some));
}

#[test]
fn a_request_with_no_cell_in_the_grid_gets_no_path() {
    let grid = small_grid(5, 5, 2);
    let requests = vec![NetRequest {
        starts: vec![cell(7, 7)],
        goals: vec![cell(1, 1)],
    }];
    let result = negotiate(&grid, &requests, 5);
    assert!(result.paths[0].is_none());
    assert!(result.converged);
}

fn endpoint(x: i64, y: i64) -> Endpoint {
    Endpoint {
        position: Point::new(x, y),
        layers: vec![LayerId(0)],
    }
}

#[test]
fn empty_and_single_endpoint_produce_no_edges() {
    assert!(minimum_spanning_tree(&[]).is_empty());
    assert!(minimum_spanning_tree(&[endpoint(0, 0)]).is_empty());
}

#[test]
fn two_endpoints_produce_one_edge() {
    let edges = minimum_spanning_tree(&[endpoint(0, 0), endpoint(1_000_000, 0)]);
    assert_eq!(edges.len(), 1);
}

#[test]
fn picks_shortest_connections_over_a_longer_direct_one() {
    let a = endpoint(0, 0);
    let b = endpoint(1_000_000, 0);
    let c = endpoint(3_000_000, 0);
    let edges = minimum_spanning_tree(&[a.duplicate(), b.duplicate(), c.duplicate()]);
    assert_eq!(edges.len(), 2);
    let connects = |edges: &[SteinerEdge], p: &Endpoint, q: &Endpoint| {
        edges
            .iter()
            .any(|e| (e.from == *p && e.to == *q) || (e.from == *q && e.to == *p))
    };
    assert!(connects(&edges, &a, &b), "a-b is the cheapest edge at a");
    assert!(connects(&edges, &b, &c), "b-c is cheaper than a-c");
    assert!(!connects(&edges, &a, &c), "a-c would be the redundant long edge");
}

#[test]
fn always_produces_exactly_n_minus_one_edges_and_stays_connected() {
    let points = [
        (0, 0),
        (5_000_000, 0),
        (2_000_000, 3_000_000),
        (-4_000_000, 1_000_000),
        (1_000_000, -2_000_000),
    ];
    let endpoints: Vec<Endpoint> = points.iter().map(|&(x, y)| endpoint(x, y)).collect();
    let edges = minimum_spanning_tree(&endpoints);
    assert_eq!(edges.len(), endpoints.len() - 1);
    assert!(is_connected(&endpoints, &edges));
}

fn is_connected(endpoints: &[Endpoint], edges: &[SteinerEdge]) -> bool {
    if endpoints.is_empty() {
        return true;
    }
    let mut visited = vec![false; endpoints.len()];
    let mut stack = vec![0usize];
    visited[0] = true;
    while let Some(i) = stack.pop() {
        for edge in edges {
            for (a, b) in [(&edge.from, &edge.to), (&edge.to, &edge.from)] {
                if *a == endpoints[i] {
                    if let Some(j) = endpoints.iter().position(|e| e == b) {
                        if !visited[j] {
                            visited[j] = true;
                            stack.push(j);
                        }
                    }
                }
            }
        }
    }
    visited.iter().all(|&v| v)
}

#[test]
fn prim_joins_the_lowest_numbered_nearest_endpoint_through_the_earliest_tree_endpoint() {
    let a = endpoint(0, 0);
    let b = endpoint(2_000_000, 0);
    let c = endpoint(1_000_000, 5_000_000);
    let d = endpoint(0, 2_000_000);
    let edges = minimum_spanning_tree(&[a.duplicate(), b.duplicate(), c.duplicate(), d.duplicate()]);
    assert_eq!(edges.len(), 3);
    // b and d are both 2 mm from a: the lower-numbered b joins first.
    assert!(edges[0].from == a && edges[0].to == b);
    assert!(edges[1].from == a && edges[1].to == d);
    // c is 4 mm from d, nearer than from a or b (6 mm each).
    assert!(edges[2].from == d && edges[2].to == c);
}
