# icp_stitch

Offline loop-closure post-processing for robot recordings: odometry, lidar scans and AprilTag
sightings in a SQLite file are turned into a corrected trajectory and corrected clouds, which are
written back beside what was recorded.

The library under `src/` is written in Verus. It holds the parts of the pipeline that decide,
select, order, search, and lay out bytes and text. Verus proves the contract of every function but
the few private ones that do nothing but call code from elsewhere: the contract of such a function
says what that code does, and is believed. Real numbers enter and leave it as IEEE-754 bit patterns: the arithmetic on them is done by
the program under `app/`, and every decision that is taken on their values is taken in the library.

## Layout

| Module | What it holds |
| --- | --- |
| `ieee` | comparing and ordering numbers by their bit patterns |
| `order` | stable sorting and grouping |
| `text` | the text that statements, messages and errors are made of |
| `msgs` | binary messages: graphs, nodes, constraints |
| `memory2` | the streams of a recording: statements, rows, clouds |
| `store` | what is changed in a recording, and what stays |
| `tf` | the transform tree and lookups in it |
| `recording` | which streams and frames a recording uses; legacy go2 recordings |
| `images` | camera images as gray or color samples; sharpness |
| `jpeg` | the layout of JPEG files, and which the decoder can be handed |
| `detect` | looking for tags, and the streams in which sightings are kept |
| `apriltags` | the gates that a sighting has to pass |
| `pointcloud` | k-d trees, voxel cells, and when a registration ends |
| `pgo` | keyframes, factors, revisits, loop closures |
| `artifacts` | corrected odometry, clouds and graphs |
| `rrd` | the comparison scene |
| `helpers` | one-shot fixups of a recording |
| `pipeline` | the options and the stages of a run |

`tests/` runs the library with the crates that it calls. `app/` is the command-line program: it
reads and writes the recording, does the arithmetic, solves the graph, and shows the result.

## Usage

```sh
icp_stitch --db path/to/recording.db
icp_stitch --db path/to/go2_recording.db --helper add_go2_camera_info
```

Streams and frames are found in the recording; each can be given instead, and each stage can be
left out. `icp_stitch --help` lists the options.
